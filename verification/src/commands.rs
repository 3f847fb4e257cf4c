//! The command model, name checks for co-located list and script files,
//! interpretation of script output, and the assembly of loaded commands.

use vstd::prelude::*;
use crate::env::{debug_str, str_debug_text, EnvMap};
use crate::text::{append_str, chars_of, opt_view, string_from_chars, to_owned_string, trim, trim_chars};

verus! {

// ── Schema ───────────────────────────────────────────────────────────────────

#[derive(Debug)]
pub struct OpenUrlConfig {
    pub url: String,
}

#[derive(Debug)]
pub struct PasteTextConfig {
    pub text: String,
}

#[derive(Debug)]
pub struct CopyTextConfig {
    pub text: String,
}

/// The action performed when a list item is selected.
/// The item's `subtext` (falling back to `title`) is used as the value.
#[derive(Debug, Clone, Copy, PartialEq, Eq, Structural)]
pub enum ItemAction {
    PasteText,
    CopyText,
    OpenUrl,
}

#[derive(Debug)]
pub struct StaticListConfig {
    /// Name of the list file (without extension) co-located with the command file.
    pub list: String,
    /// Optional action to perform when an item is selected.
    pub item_action: Option<ItemAction>,
}

/// How a `dynamic_list` command accepts user-supplied arguments.
#[derive(Debug, Clone, Copy, PartialEq, Eq, Structural)]
pub enum ArgMode {
    /// The script takes no argument (`none` in command files).
    NoArg,
    Optional,
    Required,
}

/// The argument mode of a command file that names none.
pub fn default_arg_mode() -> (m: ArgMode)
    ensures
        m == ArgMode::NoArg,
{
    ArgMode::NoArg
}

#[derive(Debug)]
pub struct DynamicListConfig {
    /// Name of the script file co-located with the command file.
    pub script: String,
    /// Controls when the script is invoked and whether a suffix argument is passed.
    pub arg: ArgMode,
    /// Optional action to perform when an item is selected.
    pub item_action: Option<ItemAction>,
}

/// The built-in action to apply to each value returned by a `script_action` script.
#[derive(Debug, Clone, Copy, PartialEq, Eq, Structural)]
pub enum ResultAction {
    OpenUrl,
    PasteText,
    CopyText,
}

#[derive(Debug)]
pub struct ScriptActionConfig {
    /// Name of the script file co-located with the command file.
    pub script: String,
    /// Controls whether the script accepts an argument from text typed after the phrase.
    pub arg: ArgMode,
    /// The built-in action applied to every value the script returns.
    pub result_action: ResultAction,
    /// Text prepended to each value when `result_action` is `paste_text` or `copy_text`.
    pub prefix: Option<String>,
    /// Text appended to each value when `result_action` is `paste_text` or `copy_text`.
    pub suffix: Option<String>,
}

/// The action executed when a command is selected.
#[derive(Debug)]
pub enum Action {
    OpenUrl(OpenUrlConfig),
    PasteText(PasteTextConfig),
    CopyText(CopyTextConfig),
    StaticList(StaticListConfig),
    DynamicList(DynamicListConfig),
    ScriptAction(ScriptActionConfig),
}

/// A single item in a list.
#[derive(Debug)]
pub struct ListItem {
    pub title: String,
    pub subtext: Option<String>,
}

/// A command: a phrase, its title and the action it runs.
pub struct Command {
    pub phrase: String,
    pub title: String,
    /// Whether this command is active; disabled commands are dropped at load time.
    pub enabled: bool,
    /// Inline user-defined environment variables, merged last into a script's environment.
    pub env: EnvMap,
    pub action: Action,
    /// Directory containing the command file, relative to the commands root.
    pub source_dir: String,
}

/// Whether a command file that does not say is enabled.
pub fn default_true() -> (b: bool)
    ensures
        b,
{
    true
}

/// A warning produced when two command files define the same phrase.
/// The file read first (oldest) wins; the later one is ignored.
#[derive(Debug)]
pub struct DuplicateWarning {
    /// The conflicting phrase (lowercased).
    pub phrase: String,
    /// Relative path of the file whose command was kept.
    pub kept: String,
    /// Relative path of the file whose command was ignored.
    pub ignored: String,
}

/// A duplicate warning as text.
pub ghost struct DuplicateView {
    pub phrase: Seq<char>,
    pub kept: Seq<char>,
    pub ignored: Seq<char>,
}

impl View for DuplicateWarning {
    type V = DuplicateView;

    open spec fn view(&self) -> DuplicateView {
        DuplicateView { phrase: self.phrase@, kept: self.kept@, ignored: self.ignored@ }
    }
}

/// The views of a list of duplicate warnings.
pub open spec fn duplicate_views(v: Seq<DuplicateWarning>) -> Seq<DuplicateView> {
    v.map_values(|w: DuplicateWarning| w@)
}

/// A warning produced when a command file defines a phrase starting with the
/// reserved `/` sigil (built-in app commands).
#[derive(Debug)]
pub struct ReservedPhraseWarning {
    /// The rejected phrase as written in the file.
    pub phrase: String,
    /// Relative path of the offending file.
    pub file: String,
}

/// The result of loading commands from the config directory.
pub struct LoadResult {
    pub commands: Vec<Command>,
    pub duplicates: Vec<DuplicateWarning>,
    /// Commands rejected because their phrase starts with the reserved `/` sigil.
    pub reserved: Vec<ReservedPhraseWarning>,
}

// ── Co-located file names ────────────────────────────────────────────────────

/// Whether `s` holds two consecutive dots.
pub open spec fn has_dot_dot(s: Seq<char>) -> bool {
    exists|i: int| 0 <= i && i + 1 < s.len() && s[i] == '.' && #[trigger] s[i + 1] == '.'
}

/// A plain file name that cannot leave its directory: no `/`, no `\`, no `..`.
pub open spec fn is_plain_file_name(name: Seq<char>) -> bool {
    !name.contains('/') && !name.contains('\\') && !has_dot_dot(name)
}

fn is_plain_file_name_exec(name: &str) -> (b: bool)
    ensures
        b == is_plain_file_name(name@),
{
    let cs = chars_of(name);
    let mut i: usize = 0;
    while i < cs.len()
        invariant
            i <= cs.len(),
            cs@ == name@,
            forall|j: int| 0 <= j < i ==> cs@[j] != '/' && cs@[j] != '\\',
            forall|j: int| 0 <= j && j + 1 < i ==> !(cs@[j] == '.' && #[trigger] cs@[j + 1] == '.'),
        decreases cs.len() - i,
    {
        let c = cs[i];
        if c == '/' || c == '\\' {
            assert(name@[i as int] == c);
            return false;
        }
        if c == '.' && i > 0 && cs[i - 1] == '.' {
            assert(name@[i - 1] == '.' && name@[(i - 1) + 1] == '.');
            return false;
        }
        i = i + 1;
    }
    assert(!name@.contains('/'));
    assert(!name@.contains('\\'));
    assert(!has_dot_dot(name@)) by {
        if has_dot_dot(name@) {
            let j = choose|j: int| 0 <= j && j + 1 < name@.len() && name@[j] == '.' && #[trigger] name@[j + 1] == '.';
            assert(!(cs@[j] == '.' && cs@[j + 1] == '.'));
        }
    }
    true
}

/// The file name of the list `list_name`, which lives beside its command:
/// `<list_name>.yaml`. Names that could leave the directory are refused.
pub fn list_file_name(list_name: &str) -> (r: Result<String, String>)
    ensures
        r is Ok <==> is_plain_file_name(list_name@),
        r matches Ok(f) ==> f@ == list_name@ + ".yaml"@,
        r matches Err(e) ==> e@ == "Invalid list name: "@ + str_debug_text(list_name@),
{
    if !is_plain_file_name_exec(list_name) {
        let mut msg = String::new();
        append_str(&mut msg, "Invalid list name: ");
        let d = debug_str(list_name);
        append_str(&mut msg, d.as_str());
        return Err(msg);
    }
    let mut f = to_owned_string(list_name);
    append_str(&mut f, ".yaml");
    Ok(f)
}

/// Checks that a script name is a plain file name beside its command.
pub fn check_script_name(script_name: &str) -> (r: Result<(), String>)
    ensures
        r is Ok <==> is_plain_file_name(script_name@),
        r matches Err(e) ==> e@ == "Invalid script name: "@ + str_debug_text(script_name@),
{
    if !is_plain_file_name_exec(script_name) {
        let mut msg = String::new();
        append_str(&mut msg, "Invalid script name: ");
        let d = debug_str(script_name);
        append_str(&mut msg, d.as_str());
        return Err(msg);
    }
    Ok(())
}

/// A co-located name is refused exactly when it holds `/`, `\` or two dots
/// in a row: every other name, whatever else it holds (`_`, spaces, other
/// punctuation), is accepted, so [`list_file_name`] gives it with `.yaml`
/// added and [`check_script_name`] lets it through.
pub proof fn safe_names_are_exactly_the_accepted_ones(name: Seq<char>)
    ensures
        is_plain_file_name(name) <==> {
            &&& forall|i: int| 0 <= i < name.len() ==> #[trigger] name[i] != '/' && name[i] != '\\'
            &&& forall|i: int|
                0 <= i && i + 1 < name.len() ==> !(name[i] == '.' && #[trigger] name[i + 1] == '.')
        },
{
    if (forall|i: int| 0 <= i < name.len() ==> #[trigger] name[i] != '/' && name[i] != '\\') {
        assert(!name.contains('/'));
        assert(!name.contains('\\'));
    }
    if name.contains('/') {
        let i = choose|i: int| 0 <= i < name.len() && name[i] == '/';
        assert(name[i] == '/');
    }
    if name.contains('\\') {
        let i = choose|i: int| 0 <= i < name.len() && name[i] == '\\';
        assert(name[i] == '\\');
    }
}

/// Accepted names never leave the command's directory: an accepted script
/// name, and the file name of an accepted list, is a single path component
/// (no `/`, no `\\`) other than `..`; a list's file name is not `.` either.
pub proof fn accepted_names_stay_in_directory(name: Seq<char>)
    requires
        is_plain_file_name(name),
    ensures
        !name.contains('/') && !name.contains('\\') && name != ".."@,
        ({
            let f = name + ".yaml"@;
            !f.contains('/') && !f.contains('\\') && f != ".."@ && f != "."@
        }),
{
    reveal_strlit("..");
    reveal_strlit(".");
    reveal_strlit(".yaml");
    if name == ".."@ {
        assert(name[0] == '.' && name[0int + 1] == '.');
        assert(has_dot_dot(name));
    }
    let f = name + ".yaml"@;
    assert(f.len() >= 5);
    assert forall|i: int| 0 <= i < f.len() implies f[i] != '/' && f[i] != '\\' by {
        if i < name.len() {
            assert(f[i] == name[i]);
        } else {
            assert(f[i] == ".yaml"@[i - name.len()]);
        }
    }
}

// ── Script output ────────────────────────────────────────────────────────────

/// A script's standard output without surrounding white space.
pub fn trim_output(stdout: &str) -> (r: String)
    ensures
        r@ == trim(stdout@),
{
    let cs = chars_of(stdout);
    let t = trim_chars(&cs);
    string_from_chars(&t)
}

/// The items a list script produced: none for empty output, the parsed JSON
/// items when the output is a JSON array of items, and otherwise one item
/// whose title is the whole (trimmed) output.
pub fn items_from_output(output: String, parsed: Option<Vec<ListItem>>) -> (items: Vec<ListItem>)
    ensures
        output@.len() == 0 ==> items@.len() == 0,
        output@.len() > 0 && parsed is Some ==> items == parsed.unwrap(),
        output@.len() > 0 && parsed is None ==> items@.len() == 1 && items@[0].title == output
            && items@[0].subtext is None,
{
    if output.as_str().unicode_len() == 0 {
        return Vec::new();
    }
    match parsed {
        Some(items) => items,
        None => {
            let mut v = Vec::new();
            v.push(ListItem { title: output, subtext: None });
            v
        },
    }
}

/// The strings of the JSON array of strings in `text`, or `None` when
/// `text` is not such an array.
pub uninterp spec fn json_string_array(text: Seq<char>) -> Option<Seq<Seq<char>>>;

/// The views of a list of strings.
pub open spec fn strings_view(v: Seq<String>) -> Seq<Seq<char>> {
    v.map_values(|s: String| s@)
}

/// Parses `text` with `serde_json::from_str::<Vec<String>>`: the strings of
/// a JSON array of strings, or `None` when it fails.
#[verifier::external_body]
fn parse_json_strings(text: &str) -> (r: Option<Vec<String>>)
    ensures
        match r {
            Some(v) => json_string_array(text@) == Some(strings_view(v@)),
            None => json_string_array(text@) is None,
        },
{
    serde_json::from_str::<Vec<String>>(text).ok()
}

/// The values a script action produced from its trimmed output `output`
/// and the JSON parse of it: none for empty output, the array's strings
/// when it is a JSON array of strings, and otherwise the output itself.
pub fn values_from_output(output: String, parsed: Option<Vec<String>>) -> (values: Vec<String>)
    ensures
        output@.len() == 0 ==> values@.len() == 0,
        output@.len() > 0 && parsed is Some ==> values == parsed.unwrap(),
        output@.len() > 0 && parsed is None ==> values@.len() == 1 && values@[0] == output,
{
    if output.as_str().unicode_len() == 0 {
        return Vec::new();
    }
    match parsed {
        Some(values) => values,
        None => {
            let mut v = Vec::new();
            v.push(output);
            v
        },
    }
}

/// The values a script action produced, from its raw standard output:
/// the output is trimmed, then read as a JSON array of strings, falling back
/// to the whole output as a single value.
pub fn script_values(stdout: &str) -> (values: Vec<String>)
    ensures
        trim(stdout@).len() == 0 ==> values@.len() == 0,
        trim(stdout@).len() > 0 ==> match json_string_array(trim(stdout@)) {
            Some(vs) => strings_view(values@) == vs,
            None => strings_view(values@) == seq![trim(stdout@)],
        },
{
    let output = trim_output(stdout);
    let parsed = parse_json_strings(output.as_str());
    let values = values_from_output(output, parsed);
    proof {
        if trim(stdout@).len() > 0 && json_string_array(trim(stdout@)) is None {
            assert(strings_view(values@) =~= seq![trim(stdout@)]);
        }
    }
    values
}

// ── Command files and their order ────────────────────────────────────────────

/// A command file found under the commands directory.
pub struct CommandFile {
    /// Modification time in nanoseconds relative to the Unix epoch, when known.
    pub modified: Option<i128>,
    /// The components of the file's path relative to the commands directory.
    pub components: Vec<String>,
    /// The file's path relative to the commands directory, for messages.
    pub display: String,
    /// The directory holding the file, relative to the commands directory
    /// (empty at the root).
    pub source_dir: String,
    /// The command the file holds; `None` when it could not be read or parsed.
    pub command: Option<Command>,
}

/// Strict order of modification times; an unknown time comes first.
pub open spec fn time_lt(a: Option<i128>, b: Option<i128>) -> bool {
    match (a, b) {
        (None, Some(_)) => true,
        (Some(x), Some(y)) => x < y,
        _ => false,
    }
}

/// Lexicographic order of texts by code point.
pub open spec fn text_lt(a: Seq<char>, b: Seq<char>) -> bool
    decreases a.len(),
{
    if a.len() == 0 {
        b.len() > 0
    } else if b.len() == 0 {
        false
    } else if a[0] != b[0] {
        a[0] < b[0]
    } else {
        text_lt(a.skip(1), b.skip(1))
    }
}

/// Lexicographic order of paths, component by component.
pub open spec fn path_lt(a: Seq<Seq<char>>, b: Seq<Seq<char>>) -> bool
    decreases a.len(),
{
    if a.len() == 0 {
        b.len() > 0
    } else if b.len() == 0 {
        false
    } else if a[0] != b[0] {
        text_lt(a[0], b[0])
    } else {
        path_lt(a.skip(1), b.skip(1))
    }
}

/// The components of a file's path, as text.
pub open spec fn path_of(f: CommandFile) -> Seq<Seq<char>> {
    f.components@.map_values(|s: String| s@)
}

/// The order in which command files are read: oldest first, then by path.
pub open spec fn file_lt(a: CommandFile, b: CommandFile) -> bool {
    time_lt(a.modified, b.modified) || (a.modified == b.modified && path_lt(path_of(a), path_of(b)))
}

proof fn lemma_text_lt_props(a: Seq<char>, b: Seq<char>, c: Seq<char>)
    ensures
        !text_lt(a, a),
        text_lt(a, b) ==> !text_lt(b, a),
        text_lt(a, b) || text_lt(b, a) || a == b,
        text_lt(a, b) && text_lt(b, c) ==> text_lt(a, c),
    decreases a.len(),
{
    if a.len() > 0 && b.len() > 0 && c.len() > 0 {
        lemma_text_lt_props(a.skip(1), b.skip(1), c.skip(1));
        if a[0] == b[0] && !text_lt(a, b) && !text_lt(b, a) {
            assert(a.skip(1) == b.skip(1));
            assert(a =~= seq![a[0]] + a.skip(1));
            assert(b =~= seq![b[0]] + b.skip(1));
        }
    } else if a.len() > 0 && b.len() > 0 {
        lemma_text_lt_props(a.skip(1), b.skip(1), a.skip(1));
        if a[0] == b[0] && !text_lt(a, b) && !text_lt(b, a) {
            assert(a =~= seq![a[0]] + a.skip(1));
            assert(b =~= seq![b[0]] + b.skip(1));
        }
    } else if a.len() > 0 {
        lemma_text_lt_props(a.skip(1), a.skip(1), a.skip(1));
    }
    if a.len() == 0 && b.len() == 0 {
        assert(a =~= b);
    }
}

proof fn lemma_path_lt_props(a: Seq<Seq<char>>, b: Seq<Seq<char>>, c: Seq<Seq<char>>)
    ensures
        !path_lt(a, a),
        path_lt(a, b) ==> !path_lt(b, a),
        path_lt(a, b) || path_lt(b, a) || a == b,
        path_lt(a, b) && path_lt(b, c) ==> path_lt(a, c),
    decreases a.len(),
{
    if a.len() > 0 && b.len() > 0 && c.len() > 0 {
        lemma_path_lt_props(a.skip(1), b.skip(1), c.skip(1));
        lemma_text_lt_props(a[0], b[0], c[0]);
        if a[0] == b[0] && !path_lt(a, b) && !path_lt(b, a) {
            assert(a =~= seq![a[0]] + a.skip(1));
            assert(b =~= seq![b[0]] + b.skip(1));
        }
    } else if a.len() > 0 && b.len() > 0 {
        lemma_path_lt_props(a.skip(1), b.skip(1), a.skip(1));
        lemma_text_lt_props(a[0], b[0], a[0]);
        if a[0] == b[0] && !path_lt(a, b) && !path_lt(b, a) {
            assert(a =~= seq![a[0]] + a.skip(1));
            assert(b =~= seq![b[0]] + b.skip(1));
        }
    } else if a.len() > 0 {
        lemma_path_lt_props(a.skip(1), a.skip(1), a.skip(1));
        lemma_text_lt_props(a[0], a[0], a[0]);
    }
    if a.len() == 0 && b.len() == 0 {
        assert(a =~= b);
    }
}

/// `file_lt` is a strict total order on the (time, path) keys of files.
proof fn lemma_file_lt_props(a: CommandFile, b: CommandFile, c: CommandFile)
    ensures
        !file_lt(a, a),
        file_lt(a, b) ==> !file_lt(b, a),
        !file_lt(a, b) && !file_lt(b, a) ==> (file_lt(a, c) == file_lt(b, c) && file_lt(c, a)
            == file_lt(c, b)),
        file_lt(a, b) && file_lt(b, c) ==> file_lt(a, c),
{
    lemma_path_lt_props(path_of(a), path_of(b), path_of(c));
    lemma_path_lt_props(path_of(a), path_of(a), path_of(a));
    lemma_path_lt_props(path_of(b), path_of(a), path_of(c));
    lemma_path_lt_props(path_of(c), path_of(a), path_of(b));
    lemma_path_lt_props(path_of(a), path_of(c), path_of(b));
}

fn text_before(a: &str, b: &str) -> (r: bool)
    ensures
        r == text_lt(a@, b@),
{
    let ca = chars_of(a);
    let cb = chars_of(b);
    let mut i: usize = 0;
    assert(a@.skip(0) =~= a@);
    assert(b@.skip(0) =~= b@);
    while i < ca.len() && i < cb.len() && ca[i] == cb[i]
        invariant
            i <= ca.len(),
            i <= cb.len(),
            ca@ == a@,
            cb@ == b@,
            text_lt(a@, b@) == text_lt(a@.skip(i as int), b@.skip(i as int)),
        decreases ca.len() - i,
    {
        assert(a@.skip(i as int).skip(1) =~= a@.skip(i + 1));
        assert(b@.skip(i as int).skip(1) =~= b@.skip(i + 1));
        i = i + 1;
    }
    if i == ca.len() {
        i < cb.len()
    } else if i == cb.len() {
        false
    } else {
        ca[i] < cb[i]
    }
}

fn path_before(a: &Vec<String>, b: &Vec<String>) -> (r: bool)
    ensures
        r == path_lt(a@.map_values(|s: String| s@), b@.map_values(|s: String| s@)),
{
    let ghost pa = a@.map_values(|s: String| s@);
    let ghost pb = b@.map_values(|s: String| s@);
    let mut i: usize = 0;
    assert(pa.skip(0) =~= pa);
    assert(pb.skip(0) =~= pb);
    while i < a.len() && i < b.len() && a[i] == b[i]
        invariant
            i <= a@.len(),
            i <= b@.len(),
            pa == a@.map_values(|s: String| s@),
            pb == b@.map_values(|s: String| s@),
            path_lt(pa, pb) == path_lt(pa.skip(i as int), pb.skip(i as int)),
        decreases a.len() - i,
    {
        assert(pa.skip(i as int).skip(1) =~= pa.skip(i + 1));
        assert(pb.skip(i as int).skip(1) =~= pb.skip(i + 1));
        assert(pa.skip(i as int)[0] == pb.skip(i as int)[0]);
        i = i + 1;
    }
    if i == a.len() {
        i < b.len()
    } else if i == b.len() {
        false
    } else {
        assert(pa.skip(i as int)[0] != pb.skip(i as int)[0]);
        text_before(a[i].as_str(), b[i].as_str())
    }
}

/// Whether `a` is read before `b` (see [`file_lt`]).
pub fn file_before(a: &CommandFile, b: &CommandFile) -> (r: bool)
    ensures
        r == file_lt(*a, *b),
{
    let time_first = match (a.modified, b.modified) {
        (None, Some(_)) => true,
        (Some(x), Some(y)) => x < y,
        _ => false,
    };
    if time_first {
        return true;
    }
    if a.modified != b.modified {
        return false;
    }
    path_before(&a.components, &b.components)
}

/// `p` lists each of `0..n` once.
pub open spec fn is_permutation(p: Seq<int>, n: int) -> bool {
    &&& p.len() == n
    &&& forall|i: int| 0 <= i < n ==> 0 <= #[trigger] p[i] < n
    &&& forall|i: int, j: int| 0 <= i < j < n ==> p[i] != p[j]
}

/// `output` is `input` reordered by `p` (`output[i] == input[p[i]]`), in
/// the read order of [`file_lt`], with files of equal keys in input order.
pub open spec fn sorts(input: Seq<CommandFile>, output: Seq<CommandFile>, p: Seq<int>) -> bool {
    &&& is_permutation(p, input.len() as int)
    &&& output.len() == input.len()
    &&& forall|i: int| 0 <= i < output.len() ==> #[trigger] output[i] == input[p[i]]
    &&& forall|i: int, j: int| 0 <= i < j < output.len() ==> !file_lt(output[j], output[i])
    &&& forall|i: int, j: int|
        0 <= i < j < output.len() && p[i] > p[j] ==> file_lt(output[i], output[j])
}

/// Puts command files in the order they are read: oldest modification
/// time first, ties broken by path; a stable sort.
pub fn sort_command_files(files: Vec<CommandFile>) -> (out: Vec<CommandFile>)
    ensures
        exists|p: Seq<int>| sorts(files@, out@, p),
{
    let ghost all = files@;
    let mut files = files;
    let mut out: Vec<CommandFile> = Vec::new();
    let ghost mut p: Seq<int> = Seq::empty();
    let n = files.len();
    let mut i: usize = 0;
    while i < n
        invariant
            i <= n,
            n == all.len(),
            files@ == all.skip(i as int),
            sorts(all.take(i as int), out@, p),
        decreases n - i,
    {
        let x = files.remove(0);
        assert(x == all[i as int]);
        assert(files@ =~= all.skip(i + 1));
        let mut j: usize = 0;
        while j < out.len() && !file_before(&x, &out[j])
            invariant
                j <= out@.len(),
                forall|k: int| 0 <= k < j ==> !file_lt(x, #[trigger] out@[k]),
            decreases out.len() - j,
        {
            j = j + 1;
        }
        let ghost old_out = out@;
        let ghost old_p = p;
        let ghost prefix = all.take(i as int);
        out.insert(j, x);
        proof {
            p = old_p.insert(j as int, i as int);
            let np = p;
            let no = out@;
            let pre2 = all.take(i + 1);
            assert forall|k: int| 0 <= k < i + 1 implies 0 <= #[trigger] np[k] < i + 1 by {
                if k < j {
                    assert(np[k] == old_p[k]);
                } else if k > j {
                    assert(np[k] == old_p[k - 1]);
                }
            }
            assert forall|a: int, b: int| 0 <= a < b < i + 1 implies np[a] != np[b] by {
                if a < j && b < j {
                } else if a < j && b == j {
                    assert(old_p[a] < i);
                } else if a < j && b > j {
                    assert(np[b] == old_p[b - 1]);
                } else if a == j {
                    assert(np[b] == old_p[b - 1]);
                    assert(old_p[b - 1] < i);
                } else {
                    assert(np[a] == old_p[a - 1]);
                    assert(np[b] == old_p[b - 1]);
                }
            }
            assert forall|k: int| 0 <= k < no.len() implies #[trigger] no[k] == pre2[np[k]] by {
                if k < j {
                    assert(no[k] == old_out[k]);
                    assert(old_out[k] == prefix[old_p[k]]);
                } else if k > j {
                    assert(no[k] == old_out[k - 1]);
                    assert(old_out[k - 1] == prefix[old_p[k - 1]]);
                }
            }
            assert forall|a: int, b: int| 0 <= a < b < no.len() implies !file_lt(no[b], no[a]) by {
                if a < j && b < j {
                    assert(!file_lt(old_out[b], old_out[a]));
                } else if a < j && b == j {
                } else if a < j && b > j {
                    assert(!file_lt(old_out[b - 1], old_out[a]));
                } else if a == j {
                    if j < old_out.len() {
                        lemma_file_lt_props(old_out[b - 1], x, old_out[j as int]);
                        assert(file_lt(x, old_out[j as int]));
                        if b - 1 > j {
                            assert(!file_lt(old_out[b - 1], old_out[j as int]));
                        }
                    }
                } else {
                    assert(!file_lt(old_out[b - 1], old_out[a - 1]));
                }
            }
            assert forall|a: int, b: int| 0 <= a < b < no.len() && np[a] > np[b] implies file_lt(
                no[a],
                no[b],
            ) by {
                if a < j && b < j {
                } else if a < j && b == j {
                    assert(old_p[a] < i);
                } else if a < j && b > j {
                    assert(np[b] == old_p[b - 1]);
                    assert(file_lt(old_out[a], old_out[b - 1]));
                } else if a == j {
                    assert(file_lt(x, old_out[j as int]));
                    if b - 1 > j {
                        assert(!file_lt(old_out[b - 1], old_out[j as int]));
                        lemma_file_lt_props(old_out[j as int], old_out[b - 1], x);
                        lemma_file_lt_props(x, old_out[j as int], old_out[b - 1]);
                        lemma_file_lt_props(old_out[b - 1], old_out[j as int], x);
                    }
                } else {
                    assert(np[a] == old_p[a - 1]);
                    assert(np[b] == old_p[b - 1]);
                }
            }
        }
        i = i + 1;
    }
    assert(all.take(n as int) =~= all);
    out
}

// ── Assembling the loaded commands ───────────────────────────────────────────

/// The lower-case form of `s` under Unicode case mapping (`str::to_lowercase`).
pub uninterp spec fn unicode_lowercase(s: Seq<char>) -> Seq<char>;

/// `str::to_lowercase`: the lower-case form of `s`.
#[verifier::external_body]
fn to_lowercase(s: &str) -> (r: String)
    ensures
        r@ == unicode_lowercase(s@),
{
    s.to_lowercase()
}

/// The key under which a phrase is compared: its lower-case form.
pub open spec fn phrase_key(phrase: Seq<char>) -> Seq<char> {
    unicode_lowercase(phrase)
}

/// Whether a phrase is in the namespace reserved for built-in commands:
/// its key starts with `/`.
pub open spec fn is_reserved_phrase(phrase: Seq<char>) -> bool {
    phrase_key(phrase).len() > 0 && phrase_key(phrase)[0] == '/'
}

/// The loader's state after some files: the commands kept, the warnings
/// raised, and, when duplicates are refused, the file that claimed each key.
pub ghost struct Assembly {
    pub commands: Seq<Command>,
    pub duplicates: Seq<DuplicateView>,
    pub reserved: Seq<ReservedPhraseWarning>,
    pub seen: Map<Seq<char>, Seq<char>>,
}

/// The loader's state before any file.
pub open spec fn empty_assembly() -> Assembly {
    Assembly {
        commands: Seq::empty(),
        duplicates: Seq::empty(),
        reserved: Seq::empty(),
        seen: Map::empty(),
    }
}

/// What one file does to the loader's state. Unreadable or unparseable
/// files and disabled commands are skipped; a reserved phrase is rejected
/// with a warning; when duplicates are refused, a phrase whose key was
/// already claimed is ignored with a warning that holds the lowercased
/// phrase and names the file that kept it;
/// any other command is kept, with its directory recorded.
pub open spec fn assemble_step(st: Assembly, f: CommandFile, allow_duplicates: bool) -> Assembly {
    match f.command {
        None => st,
        Some(c) => if !c.enabled {
            st
        } else if is_reserved_phrase(c.phrase@) {
            Assembly {
                commands: st.commands,
                duplicates: st.duplicates,
                reserved: st.reserved.push(ReservedPhraseWarning { phrase: c.phrase, file: f.display }),
                seen: st.seen,
            }
        } else if !allow_duplicates && st.seen.contains_key(phrase_key(c.phrase@)) {
            Assembly {
                commands: st.commands,
                duplicates: st.duplicates.push(
                    DuplicateView {
                        phrase: phrase_key(c.phrase@),
                        kept: st.seen[phrase_key(c.phrase@)],
                        ignored: f.display@,
                    },
                ),
                reserved: st.reserved,
                seen: st.seen,
            }
        } else {
            Assembly {
                commands: st.commands.push(
                    Command {
                        phrase: c.phrase,
                        title: c.title,
                        enabled: c.enabled,
                        env: c.env,
                        action: c.action,
                        source_dir: f.source_dir,
                    },
                ),
                duplicates: st.duplicates,
                reserved: st.reserved,
                seen: if allow_duplicates {
                    st.seen
                } else {
                    st.seen.insert(phrase_key(c.phrase@), f.display@)
                },
            }
        },
    }
}

/// The loader's state after reading `files` in order.
pub open spec fn assemble(files: Seq<CommandFile>, allow_duplicates: bool) -> Assembly
    decreases files.len(),
{
    if files.len() == 0 {
        empty_assembly()
    } else {
        assemble_step(assemble(files.drop_last(), allow_duplicates), files.last(), allow_duplicates)
    }
}

/// The claimed keys, held as `(key, file)` pairs, match `seen`.
spec fn seen_matches(v: Seq<(String, String)>, seen: Map<Seq<char>, Seq<char>>) -> bool {
    &&& forall|i: int, j: int| 0 <= i < j < v.len() ==> v[i].0@ != v[j].0@
    &&& forall|i: int|
        0 <= i < v.len() ==> #[trigger] seen.contains_key(v[i].0@) && seen[v[i].0@] == v[i].1@
    &&& forall|k: Seq<char>|
        #[trigger] seen.contains_key(k) ==> exists|i: int| 0 <= i < v.len() && v[i].0@ == k
}

/// Builds the result of a load from command files already in read order
/// (see [`assemble`]).
pub fn assemble_commands(files: Vec<CommandFile>, allow_duplicates: bool) -> (r: LoadResult)
    ensures
        r.commands@ == assemble(files@, allow_duplicates).commands,
        duplicate_views(r.duplicates@) == assemble(files@, allow_duplicates).duplicates,
        r.reserved@ == assemble(files@, allow_duplicates).reserved,
{
    let ghost all = files@;
    let mut files = files;
    let mut commands: Vec<Command> = Vec::new();
    let mut duplicates: Vec<DuplicateWarning> = Vec::new();
    let mut reserved: Vec<ReservedPhraseWarning> = Vec::new();
    let mut seen: Vec<(String, String)> = Vec::new();
    let n = files.len();
    let mut i: usize = 0;
    while i < n
        invariant
            i <= n,
            n == all.len(),
            files@ == all.skip(i as int),
            commands@ == assemble(all.take(i as int), allow_duplicates).commands,
            duplicate_views(duplicates@) == assemble(all.take(i as int), allow_duplicates).duplicates,
            reserved@ == assemble(all.take(i as int), allow_duplicates).reserved,
            seen_matches(seen@, assemble(all.take(i as int), allow_duplicates).seen),
        decreases n - i,
    {
        let ghost st = assemble(all.take(i as int), allow_duplicates);
        let f = files.remove(0);
        assert(f == all[i as int]);
        assert(files@ =~= all.skip(i + 1));
        assert(all.take(i + 1).drop_last() =~= all.take(i as int));
        assert(assemble(all.take(i + 1), allow_duplicates) == assemble_step(st, f, allow_duplicates));
        let CommandFile { modified: _, components: _, display, source_dir, command } = f;
        match command {
            None => {},
            Some(cmd) => {
                if cmd.enabled {
                    let key = to_lowercase(cmd.phrase.as_str());
                    let key_chars = chars_of(key.as_str());
                    if key_chars.len() > 0 && key_chars[0] == '/' {
                        reserved.push(ReservedPhraseWarning { phrase: cmd.phrase, file: display });
                    } else {
                        let mut found: Option<usize> = None;
                        if !allow_duplicates {
                            let mut k: usize = 0;
                            while k < seen.len() && found.is_none()
                                invariant
                                    k <= seen@.len(),
                                    found matches Some(x) ==> x < seen@.len() && seen@[x as int].0@
                                        == key@,
                                    found is None ==> forall|a: int| 0 <= a < k ==> seen@[a].0@ != key@,
                                decreases seen.len() - k + (if found is None { 1int } else { 0int }),
                            {
                                if seen[k].0 == key {
                                    found = Some(k);
                                } else {
                                    k = k + 1;
                                }
                            }
                        }
                        match found {
                            Some(k) => {
                                assert(st.seen.contains_key(seen@[k as int].0@));
                                let kept = seen[k].1.clone();
                                let ghost old_dups = duplicates@;
                                duplicates.push(DuplicateWarning { phrase: key, kept, ignored: display });
                                assert(duplicate_views(duplicates@) =~= duplicate_views(old_dups).push(
                                    duplicates@[duplicates@.len() - 1]@,
                                ));
                            },
                            None => {
                                proof {
                                    if !allow_duplicates && st.seen.contains_key(key@) {
                                        let a = choose|a: int| 0 <= a < seen@.len() && seen@[a].0@ == key@;
                                        assert(seen@[a].0@ != key@);
                                    }
                                }
                                let ghost old_seen = seen@;
                                if !allow_duplicates {
                                    seen.push((key, display));
                                    proof {
                                        let ns = st.seen.insert(phrase_key(cmd.phrase@), seen@[seen@.len() - 1].1@);
                                        assert forall|a: int| 0 <= a < seen@.len() implies #[trigger] ns.contains_key(seen@[a].0@)
                                            && ns[seen@[a].0@] == seen@[a].1@ by {
                                            if a < old_seen.len() {
                                                assert(st.seen.contains_key(old_seen[a].0@));
                                            }
                                        }
                                        assert forall|kk: Seq<char>| #[trigger] ns.contains_key(kk) implies exists|a: int|
                                            0 <= a < seen@.len() && seen@[a].0@ == kk by {
                                            if kk == key@ {
                                                assert(seen@[seen@.len() - 1].0@ == kk);
                                            } else {
                                                let a = choose|a: int| 0 <= a < old_seen.len() && old_seen[a].0@ == kk;
                                                assert(seen@[a].0@ == kk);
                                            }
                                        }
                                    }
                                }
                                let mut kept_cmd = cmd;
                                kept_cmd.source_dir = source_dir;
                                commands.push(kept_cmd);
                            },
                        }
                    }
                }
            },
        }
        i = i + 1;
    }
    assert(all.take(n as int) =~= all);
    LoadResult { commands, duplicates, reserved }
}

/// Loads commands from the files found under the commands directory: the
/// files are put in read order (see [`sort_command_files`]), then assembled
/// (see [`assemble`]) so that the oldest file wins when duplicates are refused.
pub fn load_commands(files: Vec<CommandFile>, allow_duplicates: bool) -> (r: LoadResult)
    ensures
        exists|sorted: Seq<CommandFile>, p: Seq<int>|
            {
                &&& sorts(files@, sorted, p)
                &&& r.commands@ == assemble(sorted, allow_duplicates).commands
                &&& duplicate_views(r.duplicates@) == assemble(sorted, allow_duplicates).duplicates
                &&& r.reserved@ == assemble(sorted, allow_duplicates).reserved
            },
{
    let sorted = sort_command_files(files);
    let ghost sv = sorted@;
    let r = assemble_commands(sorted, allow_duplicates);
    r
}

// ── Laws of loading ──────────────────────────────────────────────────────────

/// How many of `files` hold an enabled command.
pub open spec fn enabled_count(files: Seq<CommandFile>) -> nat
    decreases files.len(),
{
    if files.len() == 0 {
        0
    } else {
        enabled_count(files.drop_last()) + match files.last().command {
            Some(c) => if c.enabled { 1nat } else { 0nat },
            None => 0nat,
        }
    }
}

/// What loading guarantees about its result, for any files in any order:
/// - every kept command is enabled and outside the reserved `/` namespace;
/// - when duplicates are refused, no two kept commands share a phrase key,
///   the claimed keys are exactly the keys of the kept commands, and every
///   duplicate warning names a phrase whose key a kept command holds;
/// - when duplicates are allowed, there are no duplicate warnings;
/// - every enabled command is either kept, reported as a duplicate or
///   reported as reserved, exactly once.
#[verifier::spinoff_prover]
pub proof fn loading_laws(files: Seq<CommandFile>, allow_duplicates: bool)
    ensures
        ({
            let st = assemble(files, allow_duplicates);
            &&& forall|i: int|
                0 <= i < st.commands.len() ==> (#[trigger] st.commands[i]).enabled
                    && !is_reserved_phrase(st.commands[i].phrase@)
            &&& !allow_duplicates ==> forall|i: int, j: int|
                0 <= i < j < st.commands.len() ==> phrase_key(st.commands[i].phrase@) != phrase_key(
                    st.commands[j].phrase@,
                )
            &&& !allow_duplicates ==> forall|k: Seq<char>|
                #[trigger] st.seen.contains_key(k) <==> exists|i: int|
                    0 <= i < st.commands.len() && phrase_key(st.commands[i].phrase@) == k
            &&& !allow_duplicates ==> forall|w: int|
                0 <= w < st.duplicates.len() ==> exists|i: int|
                    0 <= i < st.commands.len() && phrase_key(st.commands[i].phrase@)
                        == (#[trigger] st.duplicates[w]).phrase
            &&& allow_duplicates ==> st.duplicates.len() == 0
            &&& st.commands.len() + st.duplicates.len() + st.reserved.len() == enabled_count(files)
        }),
    decreases files.len(),
{
    if files.len() > 0 {
        let prev = assemble(files.drop_last(), allow_duplicates);
        loading_laws(files.drop_last(), allow_duplicates);
        let st = assemble(files, allow_duplicates);
        let f = files.last();
        match f.command {
            None => {},
            Some(c) => {
                if !c.enabled {
                } else if is_reserved_phrase(c.phrase@) {
                } else if !allow_duplicates && prev.seen.contains_key(phrase_key(c.phrase@)) {
                    assert forall|w: int| 0 <= w < st.duplicates.len() implies exists|i: int|
                        0 <= i < st.commands.len() && phrase_key(st.commands[i].phrase@)
                            == (#[trigger] st.duplicates[w]).phrase by {
                        if w < prev.duplicates.len() {
                            assert(st.duplicates[w] == prev.duplicates[w]);
                        } else {
                            assert(st.duplicates[w].phrase == phrase_key(c.phrase@));
                        }
                    }
                } else {
                    let k = phrase_key(c.phrase@);
                    let n = prev.commands.len();
                    assert(st.commands[n as int].phrase == c.phrase);
                    assert forall|i: int| 0 <= i < st.commands.len() implies (#[trigger] st.commands[i]).enabled
                        && !is_reserved_phrase(st.commands[i].phrase@) by {
                        if i < n {
                            assert(st.commands[i] == prev.commands[i]);
                        }
                    }
                    if !allow_duplicates {
                        assert forall|i: int, j: int| 0 <= i < j < st.commands.len() implies phrase_key(
                            st.commands[i].phrase@,
                        ) != phrase_key(st.commands[j].phrase@) by {
                            assert(st.commands[i] == prev.commands[i]);
                            if j < n {
                                assert(st.commands[j] == prev.commands[j]);
                            } else {
                                if phrase_key(prev.commands[i].phrase@) == k {
                                    assert(prev.seen.contains_key(k));
                                }
                            }
                        }
                        assert forall|kk: Seq<char>| #[trigger] st.seen.contains_key(kk) <==> exists|i: int|
                            0 <= i < st.commands.len() && phrase_key(st.commands[i].phrase@) == kk by {
                            if exists|i: int| 0 <= i < st.commands.len() && phrase_key(st.commands[i].phrase@) == kk {
                                let i = choose|i: int| 0 <= i < st.commands.len() && phrase_key(st.commands[i].phrase@) == kk;
                                if i < n {
                                    assert(st.commands[i] == prev.commands[i]);
                                }
                            }
                            if prev.seen.contains_key(kk) {
                                let i = choose|i: int| 0 <= i < prev.commands.len() && phrase_key(prev.commands[i].phrase@) == kk;
                                assert(st.commands[i] == prev.commands[i]);
                            }
                        }
                        assert forall|w: int| 0 <= w < st.duplicates.len() implies exists|i: int|
                            0 <= i < st.commands.len() && phrase_key(st.commands[i].phrase@)
                                == (#[trigger] st.duplicates[w]).phrase by {
                            let i = choose|i: int| 0 <= i < prev.commands.len() && phrase_key(prev.commands[i].phrase@)
                                == prev.duplicates[w].phrase;
                            assert(st.commands[i] == prev.commands[i]);
                        }
                    }
                }
            },
        }
    }
}

/// Whether file `f` holds an enabled command outside the reserved namespace
/// whose phrase has key `k`: a command that competes for `k` when loading.
pub open spec fn claims(f: CommandFile, k: Seq<char>) -> bool {
    match f.command {
        Some(c) => c.enabled && !is_reserved_phrase(c.phrase@) && phrase_key(c.phrase@) == k,
        None => false,
    }
}

/// `files[i]` is the first of `files` that claims `k`.
pub open spec fn first_claim(files: Seq<CommandFile>, i: int, k: Seq<char>) -> bool {
    &&& 0 <= i < files.len()
    &&& claims(files[i], k)
    &&& forall|m: int| 0 <= m < i ==> !claims(#[trigger] files[m], k)
}

/// The command a file contributes when it is kept: its own, with the
/// file's directory recorded.
pub open spec fn kept_command(f: CommandFile) -> Command {
    let c = f.command.unwrap();
    Command {
        phrase: c.phrase,
        title: c.title,
        enabled: c.enabled,
        env: c.env,
        action: c.action,
        source_dir: f.source_dir,
    }
}

/// The warning `w` names as kept the first of `files` that claims its (lowercased) phrase.
pub open spec fn names_first_claim(files: Seq<CommandFile>, w: DuplicateView) -> bool {
    exists|i: int| first_claim(files, i, w.phrase) && w.kept == files[i].display@
}

/// When duplicates are refused, the first file read that defines a phrase
/// wins: every kept command is the command of the first file claiming its
/// key; a key is claimed exactly when some file defines it, and is held by
/// that first file; and every duplicate warning names that first file as
/// the one kept.
#[verifier::spinoff_prover]
pub proof fn first_claim_wins(files: Seq<CommandFile>)
    ensures
        ({
            let st = assemble(files, false);
            &&& forall|c: int|
                0 <= c < st.commands.len() ==> exists|i: int|
                    first_claim(files, i, phrase_key((#[trigger] st.commands[c]).phrase@))
                        && st.commands[c] == kept_command(files[i])
            &&& forall|k: Seq<char>|
                #[trigger] st.seen.contains_key(k) <==> exists|i: int|
                    0 <= i < files.len() && claims(files[i], k)
            &&& forall|k: Seq<char>|
                #[trigger] st.seen.contains_key(k) ==> exists|i: int|
                    first_claim(files, i, k) && st.seen[k] == files[i].display@
            &&& forall|w: int|
                0 <= w < st.duplicates.len() ==> names_first_claim(files, #[trigger] st.duplicates[w])
        }),
    decreases files.len(),
{
    if files.len() > 0 {
        let pre = files.drop_last();
        first_claim_wins(pre);
        let prev = assemble(pre, false);
        let st = assemble(files, false);
        let f = files.last();
        let n = files.len() - 1;
        assert(files[n] == f);
        assert forall|i: int| 0 <= i < pre.len() implies #[trigger] pre[i] == files[i] by {}
        assert forall|i: int, k: Seq<char>| #[trigger] first_claim(pre, i, k) implies first_claim(
            files,
            i,
            k,
        ) by {
            assert(pre[i] == files[i]);
            assert forall|m: int| 0 <= m < i implies !claims(#[trigger] files[m], k) by {
                assert(pre[m] == files[m]);
            }
        }
        // What the last file does: nothing, a duplicate warning, or a kept command.
        let claimed = match f.command {
            Some(c) => c.enabled && !is_reserved_phrase(c.phrase@),
            None => false,
        };
        let k0 = match f.command {
            Some(c) => phrase_key(c.phrase@),
            None => Seq::empty(),
        };
        assert(forall|k: Seq<char>| #[trigger] claims(f, k) ==> claimed && k == k0);
        if claimed {
            assert(claims(f, k0));
        }
        let dup = claimed && prev.seen.contains_key(k0);
        let keep = claimed && !prev.seen.contains_key(k0);
        assert(!keep ==> st.commands == prev.commands && st.seen == prev.seen);
        assert(keep ==> st.commands == prev.commands.push(kept_command(f)) && st.seen
            == prev.seen.insert(k0, f.display@));
        assert(keep ==> first_claim(files, n, k0)) by {
            if keep {
                assert forall|m: int| 0 <= m < n implies !claims(#[trigger] files[m], k0) by {
                    assert(pre[m] == files[m]);
                    if claims(pre[m], k0) {
                        assert(prev.seen.contains_key(k0));
                    }
                }
            }
        }
        assert(!dup ==> st.duplicates == prev.duplicates);
        assert(dup ==> st.duplicates == prev.duplicates.push(
            DuplicateView { phrase: k0, kept: prev.seen[k0], ignored: f.display@ },
        ));
        assert forall|c: int| 0 <= c < st.commands.len() implies exists|i: int|
            first_claim(files, i, phrase_key((#[trigger] st.commands[c]).phrase@))
                && st.commands[c] == kept_command(files[i]) by {
            if c < prev.commands.len() {
                assert(st.commands[c] == prev.commands[c]);
                let i = choose|i: int|
                    first_claim(pre, i, phrase_key(prev.commands[c].phrase@)) && prev.commands[c]
                        == kept_command(pre[i]);
                assert(first_claim(files, i, phrase_key(prev.commands[c].phrase@)));
                assert(pre[i] == files[i]);
            } else {
                assert(st.commands[c] == kept_command(files[n]));
                assert(phrase_key(st.commands[c].phrase@) == k0);
            }
        }
        assert forall|k: Seq<char>| #[trigger] st.seen.contains_key(k) <==> exists|i: int|
            0 <= i < files.len() && claims(files[i], k) by {
            if exists|i: int| 0 <= i < files.len() && claims(files[i], k) {
                let i = choose|i: int| 0 <= i < files.len() && claims(files[i], k);
                if i < n {
                    assert(pre[i] == files[i]);
                    assert(prev.seen.contains_key(k));
                } else {
                    assert(claims(f, k));
                }
            }
            if st.seen.contains_key(k) {
                if prev.seen.contains_key(k) {
                    let i = choose|i: int| 0 <= i < pre.len() && claims(pre[i], k);
                    assert(pre[i] == files[i]);
                } else {
                    assert(claims(files[n], k));
                }
            }
        }
        assert forall|k: Seq<char>| #[trigger] st.seen.contains_key(k) implies exists|i: int|
            first_claim(files, i, k) && st.seen[k] == files[i].display@ by {
            if keep && k == k0 {
                assert(st.seen[k] == files[n].display@);
            } else {
                let i = choose|i: int| first_claim(pre, i, k) && prev.seen[k] == pre[i].display@;
                assert(first_claim(files, i, k));
                assert(pre[i] == files[i]);
            }
        }
        assert forall|w: int| 0 <= w < st.duplicates.len() implies names_first_claim(
            files,
            #[trigger] st.duplicates[w],
        ) by {
            if w < prev.duplicates.len() {
                assert(st.duplicates[w] == prev.duplicates[w]);
                let i = choose|i: int|
                    first_claim(pre, i, prev.duplicates[w].phrase)
                        && prev.duplicates[w].kept == pre[i].display@;
                assert(first_claim(files, i, prev.duplicates[w].phrase));
                assert(pre[i] == files[i]);
            } else {
                assert(st.duplicates[w].phrase == k0);
                assert(st.duplicates[w].kept == prev.seen[k0]);
                let i = choose|i: int| first_claim(pre, i, k0) && prev.seen[k0] == pre[i].display@;
                assert(first_claim(files, i, k0));
                assert(pre[i] == files[i]);
            }
        }
    } else {
        assert(assemble(files, false) == empty_assembly());
        assert(assemble(files, false).duplicates.len() == 0);
    }
}

/// An injective map of `0..n` into itself is onto.
proof fn lemma_permutation_onto(p: Seq<int>, n: int)
    requires
        is_permutation(p, n),
    ensures
        forall|j: int| 0 <= j < n ==> #[trigger] p.contains(j),
{
    broadcast use vstd::seq_lib::seq_to_set_is_finite;

    assert(p.no_duplicates());
    p.unique_seq_to_set();
    vstd::set_lib::lemma_int_range(0, n);
    let range = vstd::set_lib::set_int_range(0, n);
    assert(p.to_set().subset_of(range)) by {
        assert forall|x: int| #[trigger] p.to_set().contains(x) implies range.contains(x) by {
            assert(p.contains(x));
        }
    }
    vstd::set_lib::lemma_subset_equality(p.to_set(), range);
    assert forall|j: int| 0 <= j < n implies #[trigger] p.contains(j) by {
        assert(range.contains(j));
        assert(p.to_set().contains(j));
    }
}

/// The oldest file wins: when duplicates are refused, each command that
/// loading keeps comes from a file that defines its phrase, and no other
/// file defining that phrase is read before it, that is, none is older,
/// nor equally old with an earlier path.
pub proof fn oldest_file_wins(files: Seq<CommandFile>, sorted: Seq<CommandFile>, p: Seq<int>)
    requires
        sorts(files, sorted, p),
    ensures
        ({
            let st = assemble(sorted, false);
            forall|c: int|
                0 <= c < st.commands.len() ==> exists|i: int|
                    0 <= i < sorted.len() && claims(sorted[i], phrase_key((#[trigger] st.commands[c]).phrase@))
                        && st.commands[c] == kept_command(sorted[i]) && forall|j: int|
                        0 <= j < files.len() && claims(#[trigger] files[j], phrase_key(st.commands[c].phrase@))
                            ==> !file_lt(files[j], sorted[i])
        }),
{
    let st = assemble(sorted, false);
    first_claim_wins(sorted);
    lemma_permutation_onto(p, files.len() as int);
    assert forall|c: int| 0 <= c < st.commands.len() implies exists|i: int|
        0 <= i < sorted.len() && claims(sorted[i], phrase_key((#[trigger] st.commands[c]).phrase@))
            && st.commands[c] == kept_command(sorted[i]) && forall|j: int|
            0 <= j < files.len() && claims(#[trigger] files[j], phrase_key(st.commands[c].phrase@))
                ==> !file_lt(files[j], sorted[i]) by {
        let k = phrase_key(st.commands[c].phrase@);
        let i = choose|i: int| first_claim(sorted, i, k) && st.commands[c] == kept_command(sorted[i]);
        assert forall|j: int| 0 <= j < files.len() && claims(#[trigger] files[j], k) implies !file_lt(
            files[j],
            sorted[i],
        ) by {
            assert(p.contains(j));
            let m = choose|m: int| 0 <= m < p.len() && p[m] == j;
            assert(sorted[m] == files[p[m]]);
            if m < i {
                assert(!claims(sorted[m], k));
            } else if m == i {
                lemma_file_lt_props(sorted[i], sorted[i], sorted[i]);
            } else {
                assert(!file_lt(sorted[m], sorted[i]));
            }
        }
    }
}

/// Whether loading keeps the command of `f`, from the state `st` before it.
pub open spec fn keeps(st: Assembly, f: CommandFile, allow_duplicates: bool) -> bool {
    match f.command {
        Some(c) => c.enabled && !is_reserved_phrase(c.phrase@) && (allow_duplicates
            || !st.seen.contains_key(phrase_key(c.phrase@))),
        None => false,
    }
}

/// The positions in `files` of the files whose commands loading keeps, in order.
pub open spec fn kept_positions(files: Seq<CommandFile>, allow_duplicates: bool) -> Seq<int>
    decreases files.len(),
{
    if files.len() == 0 {
        Seq::empty()
    } else {
        let prev = kept_positions(files.drop_last(), allow_duplicates);
        if keeps(assemble(files.drop_last(), allow_duplicates), files.last(), allow_duplicates) {
            prev.push(files.len() - 1)
        } else {
            prev
        }
    }
}

/// Kept commands come out in the order their files are read: the `c`-th
/// kept command is the command of the file at `kept_positions(files)[c]`,
/// and those positions strictly increase.
pub proof fn kept_commands_follow_file_order(files: Seq<CommandFile>, allow_duplicates: bool)
    ensures
        ({
            let st = assemble(files, allow_duplicates);
            let pos = kept_positions(files, allow_duplicates);
            &&& pos.len() == st.commands.len()
            &&& forall|c: int|
                0 <= c < pos.len() ==> 0 <= #[trigger] pos[c] < files.len() && st.commands[c]
                    == kept_command(files[pos[c]])
            &&& forall|c1: int, c2: int| 0 <= c1 < c2 < pos.len() ==> pos[c1] < pos[c2]
        }),
    decreases files.len(),
{
    if files.len() > 0 {
        let pre = files.drop_last();
        kept_commands_follow_file_order(pre, allow_duplicates);
        let prev = assemble(pre, allow_duplicates);
        let st = assemble(files, allow_duplicates);
        let pp = kept_positions(pre, allow_duplicates);
        let pos = kept_positions(files, allow_duplicates);
        let f = files.last();
        assert forall|c: int| 0 <= c < pp.len() implies files[pp[c]] == #[trigger] pre[pp[c]] by {}
        if keeps(prev, f, allow_duplicates) {
            assert(st.commands == prev.commands.push(kept_command(f)));
            assert forall|c: int| 0 <= c < pos.len() implies 0 <= #[trigger] pos[c] < files.len()
                && st.commands[c] == kept_command(files[pos[c]]) by {
                if c < pp.len() {
                    assert(pos[c] == pp[c]);
                    assert(pre[pp[c]] == files[pp[c]]);
                } else {
                    assert(files[files.len() - 1] == f);
                }
            }
        } else {
            assert(st.commands == prev.commands);
            assert forall|c: int| 0 <= c < pos.len() implies 0 <= #[trigger] pos[c] < files.len()
                && st.commands[c] == kept_command(files[pos[c]]) by {
                assert(pre[pp[c]] == files[pp[c]]);
            }
        }
    }
}

/// Kept commands come out in read order: when files are read in the
/// loader's order (see [`sorts`]), a later kept command never comes from a
/// file read before the file of an earlier one (older, or equally old with
/// an earlier path).
pub proof fn kept_commands_in_read_order(
    files: Seq<CommandFile>,
    sorted: Seq<CommandFile>,
    p: Seq<int>,
    allow_duplicates: bool,
)
    requires
        sorts(files, sorted, p),
    ensures
        ({
            let st = assemble(sorted, allow_duplicates);
            let pos = kept_positions(sorted, allow_duplicates);
            &&& pos.len() == st.commands.len()
            &&& forall|c: int|
                0 <= c < pos.len() ==> 0 <= #[trigger] pos[c] < sorted.len() && st.commands[c]
                    == kept_command(sorted[pos[c]])
            &&& forall|c1: int, c2: int|
                0 <= c1 < c2 < pos.len() ==> !file_lt(sorted[#[trigger] pos[c2]], sorted[#[trigger] pos[c1]])
        }),
{
    kept_commands_follow_file_order(sorted, allow_duplicates);
    let pos = kept_positions(sorted, allow_duplicates);
    assert forall|c1: int, c2: int| 0 <= c1 < c2 < pos.len() implies !file_lt(
        sorted[#[trigger] pos[c2]],
        sorted[#[trigger] pos[c1]],
    ) by {
        assert(0 <= pos[c1] < pos[c2] < sorted.len());
    }
}

/// Whether `f` holds an enabled command.
pub open spec fn holds_enabled(f: CommandFile) -> bool {
    match f.command {
        Some(c) => c.enabled,
        None => false,
    }
}

/// The positions in `files` of the files that hold an enabled command.
pub open spec fn enabled_positions(files: Seq<CommandFile>) -> Set<int> {
    Set::new(|i: int| 0 <= i < files.len() && holds_enabled(files[i]))
}

proof fn lemma_enabled_count_positions(files: Seq<CommandFile>)
    ensures
        enabled_positions(files).finite(),
        enabled_count(files) == enabled_positions(files).len(),
    decreases files.len(),
{
    if files.len() == 0 {
        assert(enabled_positions(files) =~= Set::<int>::empty());
    } else {
        let d = files.drop_last();
        let n = files.len() - 1;
        lemma_enabled_count_positions(d);
        assert forall|i: int| 0 <= i < n implies #[trigger] d[i] == files[i] by {}
        if holds_enabled(files.last()) {
            assert(enabled_positions(files) =~= enabled_positions(d).insert(n));
            assert(!enabled_positions(d).contains(n));
        } else {
            assert(enabled_positions(files) =~= enabled_positions(d));
        }
    }
}

/// Loading counts every enabled command whatever order the files are
/// found in: the files put in read order hold as many enabled commands as
/// the files handed to [`load_commands`], so the counting law of
/// [`loading_laws`] holds of those files.
pub proof fn enabled_count_is_order_free(files: Seq<CommandFile>, sorted: Seq<CommandFile>, p: Seq<int>)
    requires
        sorts(files, sorted, p),
    ensures
        enabled_count(sorted) == enabled_count(files),
{
    lemma_enabled_count_positions(files);
    lemma_enabled_count_positions(sorted);
    lemma_permutation_onto(p, files.len() as int);
    let x = enabled_positions(sorted);
    let y = enabled_positions(files);
    let f = |i: int| p[i];
    assert forall|a: int, b: int| x.contains(a) && x.contains(b) && #[trigger] f(a) == #[trigger] f(b)
        implies a == b by {}
    assert(x.map(f) =~= y) by {
        assert forall|j: int| y.contains(j) implies #[trigger] x.map(f).contains(j) by {
            assert(p.contains(j));
            let i = choose|i: int| 0 <= i < p.len() && p[i] == j;
            assert(sorted[i] == files[p[i]]);
            assert(x.contains(i));
        }
        assert forall|j: int| #[trigger] x.map(f).contains(j) implies y.contains(j) by {
            let i = choose|i: int| x.contains(i) && j == f(i);
            assert(sorted[i] == files[p[i]]);
        }
    }
    vstd::set_lib::lemma_map_size(x, y, f);
}

/// Kept commands follow the files handed to [`load_commands`] in (time,
/// path) order: the `c`-th kept command is the command of input file
/// `p[kept_positions(sorted)[c]]`, and one kept command precedes another
/// exactly when its file is read first, that is, when its file is older
/// (or as old with an earlier path), or equal in that order and earlier
/// among the input files.
pub proof fn kept_commands_in_input_order(
    files: Seq<CommandFile>,
    sorted: Seq<CommandFile>,
    p: Seq<int>,
    allow_duplicates: bool,
)
    requires
        sorts(files, sorted, p),
    ensures
        ({
            let st = assemble(sorted, allow_duplicates);
            let pos = kept_positions(sorted, allow_duplicates);
            &&& pos.len() == st.commands.len()
            &&& forall|c: int|
                0 <= c < pos.len() ==> 0 <= p[#[trigger] pos[c]] < files.len() && st.commands[c]
                    == kept_command(files[p[pos[c]]])
            &&& forall|c1: int, c2: int|
                0 <= c1 < pos.len() && 0 <= c2 < pos.len() ==> (c1 < c2 <==> (file_lt(
                    files[p[#[trigger] pos[c1]]],
                    files[p[#[trigger] pos[c2]]],
                ) || (!file_lt(files[p[pos[c2]]], files[p[pos[c1]]]) && p[pos[c1]] < p[pos[c2]])))
        }),
{
    kept_commands_follow_file_order(sorted, allow_duplicates);
    let st = assemble(sorted, allow_duplicates);
    let pos = kept_positions(sorted, allow_duplicates);
    assert forall|c: int| 0 <= c < pos.len() implies 0 <= p[#[trigger] pos[c]] < files.len()
        && st.commands[c] == kept_command(files[p[pos[c]]]) by {
        assert(sorted[pos[c]] == files[p[pos[c]]]);
    }
    // Files of kept commands, earlier first, are in (time, path, input) order.
    assert forall|c1: int, c2: int| 0 <= c1 < c2 < pos.len() implies (file_lt(
        files[p[#[trigger] pos[c1]]],
        files[p[#[trigger] pos[c2]]],
    ) || (!file_lt(files[p[pos[c2]]], files[p[pos[c1]]]) && p[pos[c1]] < p[pos[c2]])) by {
        let i = pos[c1];
        let j = pos[c2];
        assert(0 <= i < j < sorted.len());
        assert(sorted[i] == files[p[i]]);
        assert(sorted[j] == files[p[j]]);
        assert(!file_lt(sorted[j], sorted[i]));
        assert(p[i] != p[j]);
        if p[i] > p[j] {
            assert(file_lt(sorted[i], sorted[j]));
        }
    }
    assert forall|c1: int, c2: int| 0 <= c1 < pos.len() && 0 <= c2 < pos.len() implies (c1 < c2 <==> (
    file_lt(files[p[#[trigger] pos[c1]]], files[p[#[trigger] pos[c2]]]) || (!file_lt(
        files[p[pos[c2]]],
        files[p[pos[c1]]],
    ) && p[pos[c1]] < p[pos[c2]]))) by {
        let f1 = files[p[pos[c1]]];
        let f2 = files[p[pos[c2]]];
        lemma_file_lt_props(f1, f2, f1);
        lemma_file_lt_props(f2, f1, f2);
        if c2 < c1 {
            assert(file_lt(f2, f1) || (!file_lt(f1, f2) && p[pos[c2]] < p[pos[c1]]));
        }
    }
}

} // verus!
