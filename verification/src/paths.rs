//! The files a command names in its `script:` and `list:` fields: plain
//! names beside the command file, or paths built by `${VAR}` substitution.

use vstd::prelude::*;
use crate::commands::{check_script_name, is_plain_file_name, list_file_name};
use crate::env::{builtin_env, debug_str, env_after, inject_env, str_debug_text, vars_view, ScriptEnv, TargetOs};
use crate::text::{append_chars, append_str, chars_of, result_view, string_from_chars, to_owned_string};

verus! {

// ── Substitution ─────────────────────────────────────────────────────────────

/// Position of the first `c` in `s`.
pub open spec fn index_of_char(s: Seq<char>, c: char) -> Option<int>
    decreases s.len(),
{
    if s.len() == 0 {
        None
    } else if s[0] == c {
        Some(0)
    } else {
        match index_of_char(s.skip(1), c) {
            Some(j) => Some(j + 1),
            None => None,
        }
    }
}

/// What `index_of_char` finds: the first `c`, or none.
pub proof fn lemma_index_of_char(s: Seq<char>, c: char)
    ensures
        match index_of_char(s, c) {
            Some(j) => 0 <= j < s.len() && s[j] == c && forall|k: int| 0 <= k < j ==> s[k] != c,
            None => forall|k: int| 0 <= k < s.len() ==> s[k] != c,
        },
    decreases s.len(),
{
    if s.len() > 0 && s[0] != c {
        lemma_index_of_char(s.skip(1), c);
        assert forall|k: int| 1 <= k < s.len() implies s[k] == s.skip(1)[k - 1] by {}
    }
}

/// Whether `name` refers to a variable: it holds `${`.
pub open spec fn is_templated(name: Seq<char>) -> bool {
    exists|i: int| 0 <= i && i + 1 < name.len() && name[i] == '$' && #[trigger] name[i + 1] == '{'
}

/// `s` with each `${VAR}` replaced by the value of `VAR` in `vars`, read
/// from left to right (values are not themselves substituted). It fails
/// with `Err(None)` at a `${` that no `}` closes, and with `Err(Some(var))`
/// at a variable `vars` does not define.
pub open spec fn substitute(s: Seq<char>, vars: Map<Seq<char>, Seq<char>>) -> Result<
    Seq<char>,
    Option<Seq<char>>,
>
    decreases s.len(),
{
    if s.len() == 0 {
        Ok(Seq::empty())
    } else if s.len() >= 2 && s[0] == '$' && s[1] == '{' {
        proof {
            lemma_index_of_char(s.skip(2), '}');
        }
        match index_of_char(s.skip(2), '}') {
            None => Err(None),
            Some(j) => {
                let var = s.subrange(2, 2 + j);
                if vars.contains_key(var) {
                    match substitute(s.skip(3 + j), vars) {
                        Ok(rest) => Ok(vars[var] + rest),
                        Err(e) => Err(e),
                    }
                } else {
                    Err(Some(var))
                }
            },
        }
    } else {
        match substitute(s.skip(1), vars) {
            Ok(rest) => Ok(seq![s[0]] + rest),
            Err(e) => Err(e),
        }
    }
}

/// `p` before a substitution result.
pub open spec fn prepend(p: Seq<char>, r: Result<Seq<char>, Option<Seq<char>>>) -> Result<
    Seq<char>,
    Option<Seq<char>>,
> {
    match r {
        Ok(x) => Ok(p + x),
        Err(e) => Err(e),
    }
}

/// The view of a substitution result.
pub open spec fn substitution_view(r: Result<Vec<char>, Option<Vec<char>>>) -> Result<
    Seq<char>,
    Option<Seq<char>>,
> {
    match r {
        Ok(v) => Ok(v@),
        Err(None) => Err(None),
        Err(Some(v)) => Err(Some(v@)),
    }
}

proof fn lemma_env_after_last(v: Seq<(Seq<char>, Seq<char>)>, i: int)
    requires
        0 <= i < v.len(),
        forall|j: int| i < j < v.len() ==> v[j].0 != v[i].0,
    ensures
        env_after(v).contains_key(v[i].0),
        env_after(v)[v[i].0] == v[i].1,
    decreases v.len(),
{
    if i < v.len() - 1 {
        let d = v.drop_last();
        assert(d[i] == v[i]);
        assert forall|j: int| i < j < d.len() implies d[j].0 != d[i].0 by {
            assert(d[j] == v[j]);
        }
        lemma_env_after_last(d, i);
    }
}

proof fn lemma_env_after_absent(v: Seq<(Seq<char>, Seq<char>)>, k: Seq<char>)
    requires
        forall|j: int| 0 <= j < v.len() ==> v[j].0 != k,
    ensures
        !env_after(v).contains_key(k),
    decreases v.len(),
{
    if v.len() > 0 {
        let d = v.drop_last();
        assert forall|j: int| 0 <= j < d.len() implies d[j].0 != k by {
            assert(d[j] == v[j]);
        }
        lemma_env_after_absent(d, k);
    }
}

/// The value the last setting of `name` in `vars` gives it.
fn lookup_var(vars: &Vec<(String, String)>, name: &String) -> (r: Option<String>)
    ensures
        match r {
            Some(v) => env_after(vars_view(vars@)).contains_key(name@) && v@ == env_after(
                vars_view(vars@),
            )[name@],
            None => !env_after(vars_view(vars@)).contains_key(name@),
        },
{
    let ghost vv = vars_view(vars@);
    let mut k: usize = vars.len();
    while k > 0
        invariant
            k <= vars@.len(),
            vv == vars_view(vars@),
            forall|j: int| k <= j < vars@.len() ==> vars@[j].0@ != name@,
        decreases k,
    {
        if vars[k - 1].0 == *name {
            proof {
                assert forall|j: int| k - 1 < j < vv.len() implies (#[trigger] vv[j]).0 != vv[k - 1].0 by {
                    assert(vars@[j].0@ != name@);
                }
                lemma_env_after_last(vv, k - 1);
            }
            return Some(vars[k - 1].1.clone());
        }
        k = k - 1;
    }
    proof {
        assert forall|j: int| 0 <= j < vv.len() implies vv[j].0 != name@ by {
            assert(vars@[j].0@ != name@);
        }
        lemma_env_after_absent(vv, name@);
    }
    None
}

/// The position of the first `c` in `s` at or after `from`.
fn index_of_char_from(s: &Vec<char>, c: char, from: usize) -> (r: Option<usize>)
    requires
        from <= s@.len(),
    ensures
        match r {
            Some(j) => from <= j < s@.len() && index_of_char(s@.skip(from as int), c) == Some(
                j - from,
            ),
            None => index_of_char(s@.skip(from as int), c) is None,
        },
{
    proof {
        lemma_index_of_char(s@.skip(from as int), c);
    }
    let mut j = from;
    while j < s.len()
        invariant
            from <= j <= s@.len(),
            forall|k: int| from <= k < j ==> s@[k] != c,
        decreases s.len() - j,
    {
        if s[j] == c {
            proof {
                let t = s@.skip(from as int);
                lemma_index_of_char(t, c);
                match index_of_char(t, c) {
                    Some(x) => {
                        assert(t[j - from] == c);
                        if x < j - from {
                            assert(t[x] == s@[from + x]);
                        }
                    },
                    None => {
                        assert(t[j - from] == c);
                    },
                }
            }
            return Some(j);
        }
        j = j + 1;
    }
    proof {
        let t = s@.skip(from as int);
        if let Some(x) = index_of_char(t, c) {
            assert(t[x] == s@[from + x]);
        }
    }
    None
}

/// The characters of `s` from `a` up to `b`.
fn copy_range(s: &Vec<char>, a: usize, b: usize) -> (v: Vec<char>)
    requires
        a <= b <= s@.len(),
    ensures
        v@ == s@.subrange(a as int, b as int),
{
    let mut v: Vec<char> = Vec::new();
    let mut k = a;
    while k < b
        invariant
            a <= k <= b <= s@.len(),
            v@ == s@.subrange(a as int, k as int),
        decreases b - k,
    {
        v.push(s[k]);
        assert(s@.subrange(a as int, k + 1) == s@.subrange(a as int, k as int).push(s@[k as int]));
        k = k + 1;
    }
    v
}

/// Substitutes the variables set by `vars` (the last setting of a name
/// wins) into `s` (see [`substitute`]).
pub fn substitute_chars(s: &Vec<char>, vars: &Vec<(String, String)>) -> (r: Result<
    Vec<char>,
    Option<Vec<char>>,
>)
    ensures
        substitution_view(r) == substitute(s@, env_after(vars_view(vars@))),
{
    let ghost m = env_after(vars_view(vars@));
    let mut out: Vec<char> = Vec::new();
    let mut i: usize = 0;
    assert(s@.skip(0) =~= s@);
    assert(prepend(out@, substitute(s@, m)) =~= substitute(s@, m)) by {
        match substitute(s@, m) {
            Ok(x) => assert(Seq::<char>::empty() + x =~= x),
            Err(_) => {},
        }
    }
    while i < s.len()
        invariant
            i <= s@.len(),
            m == env_after(vars_view(vars@)),
            substitute(s@, m) == prepend(out@, substitute(s@.skip(i as int), m)),
        decreases s.len() - i,
    {
        let ghost t = s@.skip(i as int);
        if i + 1 < s.len() && s[i] == '$' && s[i + 1] == '{' {
            assert(t[0] == '$' && t[1] == '{');
            assert(t.skip(2) =~= s@.skip(i + 2));
            match index_of_char_from(s, '}', i + 2) {
                None => {
                    return Err(None);
                },
                Some(close) => {
                    let ghost j = close - (i + 2);
                    let var = copy_range(s, i + 2, close);
                    assert(t.subrange(2, 2 + j) =~= var@);
                    let name = string_from_chars(&var);
                    match lookup_var(vars, &name) {
                        None => {
                            return Err(Some(var));
                        },
                        Some(value) => {
                            let vc = chars_of(value.as_str());
                            let ghost before = out@;
                            append_chars(&mut out, &vc);
                            assert(t.skip(3 + j) =~= s@.skip(close + 1));
                            proof {
                                match substitute(s@.skip(close + 1), m) {
                                    Ok(rest) => {
                                        assert(before + (vc@ + rest) =~= out@ + rest);
                                    },
                                    Err(_) => {},
                                }
                            }
                            i = close + 1;
                        },
                    }
                },
            }
        } else {
            assert(!(t.len() >= 2 && t[0] == '$' && t[1] == '{'));
            let ghost before = out@;
            out.push(s[i]);
            assert(t.skip(1) =~= s@.skip(i + 1));
            proof {
                match substitute(s@.skip(i + 1), m) {
                    Ok(rest) => {
                        assert(before + (seq![t[0]] + rest) =~= out@ + rest);
                    },
                    Err(_) => {},
                }
            }
            i = i + 1;
        }
    }
    assert(s@.skip(i as int) =~= Seq::<char>::empty());
    assert(out@ + Seq::<char>::empty() =~= out@);
    Ok(out)
}

// ── Where a path leads ───────────────────────────────────────────────────────

/// A path separator: `/`, or `\` on Windows.
pub open spec fn is_separator(c: char) -> bool {
    c == '/' || c == '\\'
}

/// A `..` component of `p` starts at `i`.
pub open spec fn parent_component_at(p: Seq<char>, i: int) -> bool {
    &&& 0 <= i && i + 2 <= p.len()
    &&& p[i] == '.' && p[i + 1] == '.'
    &&& i == 0 || is_separator(p[i - 1])
    &&& i + 2 == p.len() || is_separator(p[i + 2])
}

/// Whether `p` names a `..` component.
pub open spec fn has_parent_component(p: Seq<char>) -> bool {
    exists|i: int| #[trigger] parent_component_at(p, i)
}

/// An absolute path: it starts with a separator, or with a drive (`C:`).
pub open spec fn is_absolute_path(p: Seq<char>) -> bool {
    (p.len() > 0 && is_separator(p[0])) || (p.len() > 1 && p[1] == ':')
}

/// `p` starts with the directory `dir`, followed by a separator.
pub open spec fn is_under(p: Seq<char>, dir: Seq<char>) -> bool {
    &&& dir.len() <= p.len()
    &&& p.subrange(0, dir.len() as int) == dir
    &&& (dir.len() > 0 && is_separator(dir.last())) || (dir.len() < p.len() && is_separator(
        p[dir.len() as int],
    ))
}

/// A path that stays inside the command directory `dir`: it names no `..`
/// component, and when absolute it lies under `dir`.
pub open spec fn stays_inside(p: Seq<char>, dir: Seq<char>) -> bool {
    !has_parent_component(p) && (is_absolute_path(p) ==> is_under(p, dir))
}

fn has_parent_component_exec(p: &Vec<char>) -> (b: bool)
    ensures
        b == has_parent_component(p@),
{
    let n = p.len();
    let mut i: usize = 0;
    while i < n
        invariant
            i <= n,
            n == p@.len(),
            forall|k: int| 0 <= k < i ==> !parent_component_at(p@, k),
        decreases n - i,
    {
        if i + 1 < n && p[i] == '.' && p[i + 1] == '.' && (i == 0 || p[i - 1] == '/' || p[i - 1] == '\\') && (i + 2
            == n || p[i + 2] == '/' || p[i + 2] == '\\') {
            assert(parent_component_at(p@, i as int));
            return true;
        }
        assert(!parent_component_at(p@, i as int));
        i = i + 1;
    }
    assert forall|k: int| !parent_component_at(p@, k) by {
        if 0 <= k && k < i {
        }
    }
    false
}

fn is_under_exec(p: &Vec<char>, dir: &Vec<char>) -> (b: bool)
    ensures
        b == is_under(p@, dir@),
{
    if dir.len() > p.len() {
        return false;
    }
    let mut k: usize = 0;
    while k < dir.len()
        invariant
            k <= dir@.len() <= p@.len(),
            forall|j: int| 0 <= j < k ==> p@[j] == dir@[j],
        decreases dir.len() - k,
    {
        if p[k] != dir[k] {
            assert(p@.subrange(0, dir@.len() as int)[k as int] != dir@[k as int]);
            return false;
        }
        k = k + 1;
    }
    assert(p@.subrange(0, dir@.len() as int) =~= dir@);
    let dl = dir.len();
    (dl > 0 && (dir[dl - 1] == '/' || dir[dl - 1] == '\\')) || (dl < p.len() && (p[dl] == '/' || p[dl]
        == '\\'))
}

/// Whether `p` stays inside the command directory `dir` (see [`stays_inside`]).
pub fn stays_inside_exec(p: &Vec<char>, dir: &Vec<char>) -> (b: bool)
    ensures
        b == stays_inside(p@, dir@),
{
    if has_parent_component_exec(p) {
        return false;
    }
    let absolute = (p.len() > 0 && (p[0] == '/' || p[0] == '\\')) || (p.len() > 1 && p[1] == ':');
    if absolute {
        is_under_exec(p, dir)
    } else {
        true
    }
}

// ── Resolving a name ─────────────────────────────────────────────────────────

/// Which co-located file a command names.
#[derive(Clone, Copy, PartialEq, Eq, Debug, Structural)]
pub enum FileKind {
    /// `script:` of a dynamic list or script action.
    Script,
    /// `list:` of a static list; the file is the name with `.yaml` added.
    List,
}

/// The word for a kind of file in messages.
pub open spec fn kind_label(kind: FileKind) -> Seq<char> {
    match kind {
        FileKind::Script => "script"@,
        FileKind::List => "list"@,
    }
}

/// What is added to a name to give the file's name.
pub open spec fn kind_suffix(kind: FileKind) -> Seq<char> {
    match kind {
        FileKind::Script => Seq::empty(),
        FileKind::List => ".yaml"@,
    }
}

/// The variables a name may refer to, built-in `NIMBLE_*` variables first,
/// then the user's: `user` overridden by the built-ins.
pub open spec fn name_vars(user: Map<Seq<char>, Seq<char>>, builtins: Seq<(Seq<char>, Seq<char>)>) -> Map<
    Seq<char>,
    Seq<char>,
> {
    user.union_prefer_right(env_after(builtins))
}

/// The file a `script:` or `list:` value names, as a path to join onto the
/// command directory `command_dir` (an absolute result replaces it):
/// - a plain name (without `${`) must hold no `/`, `\` or `..`; it names
///   the file beside the command, whatever `allow_external_paths` says;
/// - otherwise each `${VAR}` is replaced from `vars` (see [`substitute`]);
///   an unterminated `${` or an undefined variable is an error; and when
///   `allow_external_paths` is false the path must stay inside the command
///   directory (see [`stays_inside`]).
/// A list's file is its name with `.yaml` added.
pub open spec fn resolved_file_name(
    name: Seq<char>,
    kind: FileKind,
    vars: Map<Seq<char>, Seq<char>>,
    command_dir: Seq<char>,
    allow_external_paths: bool,
) -> Result<Seq<char>, Seq<char>> {
    if !is_templated(name) {
        if is_plain_file_name(name) {
            Ok(name + kind_suffix(kind))
        } else {
            match kind {
                FileKind::Script => Err("Invalid script name: "@ + str_debug_text(name)),
                FileKind::List => Err("Invalid list name: "@ + str_debug_text(name)),
            }
        }
    } else {
        match substitute(name, vars) {
            Err(None) => Err("Unterminated ${ in "@ + kind_label(kind) + " name "@ + str_debug_text(name)),
            Err(Some(var)) => Err("Undefined variable "@ + str_debug_text(var) + " in "@ + kind_label(kind)
                + " name "@ + str_debug_text(name)),
            Ok(p) => {
                let path = p + kind_suffix(kind);
                if allow_external_paths || stays_inside(path, command_dir) {
                    Ok(path)
                } else {
                    Err("The "@ + kind_label(kind) + " path "@ + str_debug_text(path)
                        + " is outside the command directory"@)
                }
            },
        }
    }
}

fn is_templated_exec(name: &Vec<char>) -> (b: bool)
    ensures
        b == is_templated(name@),
{
    let mut i: usize = 0;
    while i < name.len()
        invariant
            i <= name@.len(),
            forall|k: int| 0 <= k && k + 1 < name@.len() && k < i ==> !(name@[k] == '$' && #[trigger] name@[k + 1] == '{'),
        decreases name.len() - i,
    {
        if i + 1 < name.len() && name[i] == '$' && name[i + 1] == '{' {
            return true;
        }
        i = i + 1;
    }
    assert forall|k: int| 0 <= k && k + 1 < name@.len() implies !(name@[k] == '$' && #[trigger] name@[k + 1]
        == '{') by {
        assert(k < i);
    }
    false
}

fn kind_name(kind: FileKind) -> (r: &'static str)
    ensures
        r@ == kind_label(kind),
{
    match kind {
        FileKind::Script => "script",
        FileKind::List => "list",
    }
}

/// Resolves the `script:` or `list:` value `name` of a command (see
/// [`resolved_file_name`]). Variables are looked up among the built-in
/// `NIMBLE_*` variables of `env`, then its user-defined variables.
pub fn resolve_file_name(
    name: &str,
    kind: FileKind,
    env: &ScriptEnv,
    os: TargetOs,
    version: &str,
    allow_external_paths: bool,
) -> (r: Result<String, String>)
    ensures
        result_view(r) == resolved_file_name(
            name@,
            kind,
            name_vars(
                env.user_env@,
                builtin_env(env.context@, env.phrase@, env.config_dir@, env.command_dir@, os, version@),
            ),
            env.command_dir@,
            allow_external_paths,
        ),
{
    let cs = chars_of(name);
    if !is_templated_exec(&cs) {
        return match kind {
            FileKind::Script => match check_script_name(name) {
                Ok(()) => {
                    let r = to_owned_string(name);
                    assert(r@ + Seq::<char>::empty() =~= r@);
                    Ok(r)
                },
                Err(e) => Err(e),
            },
            FileKind::List => list_file_name(name),
        };
    }
    let vars = inject_env(env, os, version);
    let d = debug_str(name);
    match substitute_chars(&cs, &vars) {
        Err(None) => {
            let mut msg = String::new();
            append_str(&mut msg, "Unterminated ${ in ");
            append_str(&mut msg, kind_name(kind));
            append_str(&mut msg, " name ");
            append_str(&mut msg, d.as_str());
            Err(msg)
        },
        Err(Some(var)) => {
            let v = string_from_chars(&var);
            let dv = debug_str(v.as_str());
            let mut msg = String::new();
            append_str(&mut msg, "Undefined variable ");
            append_str(&mut msg, dv.as_str());
            append_str(&mut msg, " in ");
            append_str(&mut msg, kind_name(kind));
            append_str(&mut msg, " name ");
            append_str(&mut msg, d.as_str());
            Err(msg)
        },
        Ok(p) => {
            let mut path = p;
            match kind {
                FileKind::Script => {
                    assert(path@ + Seq::<char>::empty() =~= path@);
                },
                FileKind::List => {
                    let suffix = chars_of(".yaml");
                    append_chars(&mut path, &suffix);
                },
            }
            let dir = chars_of(env.command_dir);
            let text = string_from_chars(&path);
            if allow_external_paths || stays_inside_exec(&path, &dir) {
                Ok(text)
            } else {
                let dp = debug_str(text.as_str());
                let mut msg = String::new();
                append_str(&mut msg, "The ");
                append_str(&mut msg, kind_name(kind));
                append_str(&mut msg, " path ");
                append_str(&mut msg, dp.as_str());
                append_str(&mut msg, " is outside the command directory");
                Err(msg)
            }
        },
    }
}

/// What `allow_external_paths` governs: plain names resolve the same way
/// whatever it says, and when it is false every substituted path that is
/// accepted stays inside the command directory.
pub proof fn external_paths_setting_bounds_substituted_paths(
    name: Seq<char>,
    kind: FileKind,
    vars: Map<Seq<char>, Seq<char>>,
    command_dir: Seq<char>,
)
    ensures
        !is_templated(name) ==> resolved_file_name(name, kind, vars, command_dir, true)
            == resolved_file_name(name, kind, vars, command_dir, false),
        is_templated(name) ==> (resolved_file_name(name, kind, vars, command_dir, false) matches Ok(
            p,
        ) ==> stays_inside(p, command_dir)),
{
}

/// `s` holds no `${` before position `n`.
pub open spec fn no_token_start_before(s: Seq<char>, n: int) -> bool {
    forall|i: int| 0 <= i < n && i + 1 < s.len() ==> !(s[i] == '$' && #[trigger] s[i + 1] == '{')
}

proof fn lemma_substitute_prefix(p: Seq<char>, r: Seq<char>, vars: Map<Seq<char>, Seq<char>>)
    requires
        no_token_start_before(p + r, p.len() as int),
    ensures
        substitute(p + r, vars) == prepend(p, substitute(r, vars)),
    decreases p.len(),
{
    let s = p + r;
    if p.len() == 0 {
        assert(s =~= r);
        match substitute(r, vars) {
            Ok(x) => assert(p + x =~= x),
            Err(_) => {},
        }
    } else {
        assert(!(s.len() >= 2 && s[0] == '$' && s[1] == '{')) by {
            if s.len() >= 2 {
                assert(0 + 1 < s.len());
            }
        }
        let p1 = p.skip(1);
        assert(s.skip(1) =~= p1 + r);
        assert(no_token_start_before(p1 + r, p1.len() as int)) by {
            assert forall|i: int| 0 <= i < p1.len() && i + 1 < (p1 + r).len() implies !((p1 + r)[i] == '$'
                && #[trigger] (p1 + r)[i + 1] == '{') by {
                assert((p1 + r)[i] == s[i + 1]);
                assert((p1 + r)[i + 1] == s[(i + 1) + 1]);
            }
        }
        lemma_substitute_prefix(p1, r, vars);
        match substitute(r, vars) {
            Ok(x) => assert(seq![s[0]] + (p1 + x) =~= p + x),
            Err(_) => {},
        }
    }
}

/// Every `${VAR}` token is substituted, wherever it stands in a name: for
/// texts `pre` and `post` holding no `${`, and a variable `var` (holding no
/// `}`) that `vars` defines, resolving `pre ${var} post` gives `pre`, the
/// variable's value and `post` (with `.yaml` added for a list), and never
/// the literal token.
pub proof fn every_variable_token_is_substituted(
    pre: Seq<char>,
    var: Seq<char>,
    post: Seq<char>,
    kind: FileKind,
    vars: Map<Seq<char>, Seq<char>>,
    command_dir: Seq<char>,
    allow_external_paths: bool,
)
    requires
        no_token_start_before(pre, pre.len() as int),
        no_token_start_before(post, post.len() as int),
        forall|i: int| 0 <= i < var.len() ==> var[i] != '}',
        vars.contains_key(var),
        allow_external_paths,
    ensures
        resolved_file_name(
            pre + seq!['$', '{'] + var + seq!['}'] + post,
            kind,
            vars,
            command_dir,
            allow_external_paths,
        ) == Ok::<Seq<char>, Seq<char>>(pre + vars[var] + post + kind_suffix(kind)),
{
    let t = seq!['$', '{'] + var + seq!['}'] + post;
    let name = pre + seq!['$', '{'] + var + seq!['}'] + post;
    assert(name =~= pre + t);
    // The token makes the name a template.
    assert(name[pre.len() as int] == '$' && name[pre.len() as int + 1] == '{');
    assert(is_templated(name));
    // Nothing before the token starts another one.
    assert(no_token_start_before(pre + t, pre.len() as int)) by {
        assert forall|i: int| 0 <= i < pre.len() && i + 1 < (pre + t).len() implies !((pre + t)[i] == '$'
            && #[trigger] (pre + t)[i + 1] == '{') by {
            if i + 1 < pre.len() {
                assert((pre + t)[i] == pre[i]);
                assert((pre + t)[i + 1] == pre[i + 1]);
            } else {
                assert((pre + t)[i + 1] == '$');
            }
        }
    }
    lemma_substitute_prefix(pre, t, vars);
    // The token itself.
    let rest = t.skip(2);
    assert(rest =~= var + seq!['}'] + post);
    lemma_index_of_char(rest, '}');
    assert(rest[var.len() as int] == '}');
    match index_of_char(rest, '}') {
        Some(j) => {
            if j < var.len() {
                assert(rest[j] == var[j]);
            }
            assert(j == var.len());
        },
        None => {
            assert(rest[var.len() as int] != '}');
        },
    }
    assert(t.subrange(2, 2 + var.len() as int) =~= var);
    assert(t.skip(3 + var.len() as int) =~= post);
    assert(post =~= post + Seq::<char>::empty());
    assert(substitute(Seq::<char>::empty(), vars) == Ok::<Seq<char>, Option<Seq<char>>>(Seq::empty()));
    lemma_substitute_prefix(post, Seq::empty(), vars);
    assert(substitute(post, vars) == Ok::<Seq<char>, Option<Seq<char>>>(post));
    assert(substitute(t, vars) == Ok::<Seq<char>, Option<Seq<char>>>(vars[var] + post));
    assert(pre + (vars[var] + post) =~= pre + vars[var] + post);
}

} // verus!
