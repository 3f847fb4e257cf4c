//! User-defined environment variables: key validation, the `env.yaml`
//! layers and their merge, and the environment handed to scripts.

use vstd::prelude::*;
use crate::text::{append_str, chars_of, is_blank, is_blank_str, opt_view, starts_with, to_owned_string, unit_result_view};
use crate::url::{is_ascii_alpha, is_ascii_digit};

verus! {

// ── Keys ─────────────────────────────────────────────────────────────────────

/// A character that may start an environment key.
pub open spec fn is_env_key_start(c: char) -> bool {
    is_ascii_alpha(c) || c == '_'
}

/// A character that may appear in an environment key.
pub open spec fn is_env_key_char(c: char) -> bool {
    is_ascii_alpha(c) || is_ascii_digit(c) || c == '_'
}

/// The namespace reserved for built-in variables.
pub open spec fn reserved_env_prefix() -> Seq<char> {
    seq!['N', 'I', 'M', 'B', 'L', 'E', '_']
}

/// A portable key outside the reserved namespace: `[A-Za-z_][A-Za-z0-9_]*`
/// not starting with `NIMBLE_`.
pub open spec fn is_valid_env_key(key: Seq<char>) -> bool {
    &&& key.len() > 0
    &&& !starts_with(key, reserved_env_prefix())
    &&& is_env_key_start(key[0])
    &&& forall|j: int| 1 <= j < key.len() ==> is_env_key_char(#[trigger] key[j])
}

/// The position of the first character at or after `i` that may not appear in a key.
pub open spec fn first_invalid_key_char(key: Seq<char>, i: int) -> Option<int>
    decreases key.len() - i,
{
    if i < 0 || i >= key.len() {
        None
    } else if !is_env_key_char(key[i]) {
        Some(i)
    } else {
        first_invalid_key_char(key, i + 1)
    }
}

/// The text `format!("{:?}", s)` gives for a string (quoted, with escapes).
pub uninterp spec fn str_debug_text(s: Seq<char>) -> Seq<char>;

/// The text `format!("{:?}", c)` gives for a character (quoted, with escapes).
pub uninterp spec fn char_debug_text(c: char) -> Seq<char>;

/// `"Key <key:?> in <source><tail>"`.
pub open spec fn key_message(key: Seq<char>, source: Seq<char>, tail: Seq<char>) -> Seq<char> {
    "Key "@ + str_debug_text(key) + " in "@ + source + tail
}

/// What `validate_env_key` gives for `key` read from `source`: the first rule broken, in order.
pub open spec fn env_key_check(key: Seq<char>, source: Seq<char>) -> Result<(), Seq<char>> {
    if key.len() == 0 {
        Err("Empty environment variable key in "@ + source)
    } else if starts_with(key, reserved_env_prefix()) {
        Err(key_message(key, source, " uses the reserved NIMBLE_ prefix"@))
    } else if !is_env_key_start(key[0]) {
        Err(key_message(key, source, " must start with a letter or underscore"@))
    } else {
        match first_invalid_key_char(key, 1) {
            Some(i) => Err(
                key_message(key, source, " contains invalid character "@) + char_debug_text(key[i]),
            ),
            None => Ok(()),
        }
    }
}

/// Debug formatting of a string (std's `<str as Debug>::fmt`).
#[verifier::external_body]
pub(crate) fn debug_str(s: &str) -> (r: String)
    ensures
        r@ == str_debug_text(s@),
{
    format!("{:?}", s)
}

/// Debug formatting of a character (std's `<char as Debug>::fmt`).
#[verifier::external_body]
fn debug_char(c: char) -> (r: String)
    ensures
        r@ == char_debug_text(c),
{
    format!("{:?}", c)
}

proof fn lemma_first_invalid_none(key: Seq<char>, i: int)
    requires
        0 <= i <= key.len(),
    ensures
        first_invalid_key_char(key, i) is None <==> forall|j: int|
            i <= j < key.len() ==> is_env_key_char(#[trigger] key[j]),
    decreases key.len() - i,
{
    if i < key.len() {
        lemma_first_invalid_none(key, i + 1);
    }
}

fn key_error(key: &str, source: &str, tail: &str) -> (r: String)
    ensures
        r@ == key_message(key@, source@, tail@),
{
    let mut msg = String::new();
    append_str(&mut msg, "Key ");
    let d = debug_str(key);
    append_str(&mut msg, d.as_str());
    append_str(&mut msg, " in ");
    append_str(&mut msg, source);
    append_str(&mut msg, tail);
    msg
}

/// Checks that an environment key is portable and outside the reserved
/// `NIMBLE_` namespace: it must match `[A-Za-z_][A-Za-z0-9_]*`.
/// `source` names where the key came from, for the error message.
pub fn validate_env_key(key: &str, source: &str) -> (r: Result<(), String>)
    ensures
        unit_result_view(r) == env_key_check(key@, source@),
        r is Ok <==> is_valid_env_key(key@),
{
    let cs = chars_of(key);
    if cs.len() == 0 {
        let mut msg = String::new();
        append_str(&mut msg, "Empty environment variable key in ");
        append_str(&mut msg, source);
        return Err(msg);
    }
    let prefix: Vec<char> = vec!['N', 'I', 'M', 'B', 'L', 'E', '_'];
    assert(prefix@ =~= reserved_env_prefix());
    let mut has_prefix = cs.len() >= prefix.len();
    let mut k: usize = 0;
    while k < prefix.len() && has_prefix
        invariant
            k <= prefix.len(),
            cs@ == key@,
            has_prefix ==> prefix.len() <= cs.len(),
            has_prefix ==> forall|j: int| 0 <= j < k ==> cs@[j] == prefix@[j],
            !has_prefix ==> !starts_with(key@, reserved_env_prefix()),
            prefix@ == reserved_env_prefix(),
        decreases prefix.len() - k,
    {
        if cs[k] != prefix[k] {
            assert(key@.take(7)[k as int] != prefix@[k as int]);
            has_prefix = false;
        }
        k = k + 1;
    }
    if has_prefix {
        assert(key@.take(7) =~= prefix@);
        return Err(key_error(key, source, " uses the reserved NIMBLE_ prefix"));
    }
    proof {
        lemma_first_invalid_none(key@, 1);
    }
    let first = cs[0];
    if !(('a' <= first && first <= 'z') || ('A' <= first && first <= 'Z') || first == '_') {
        return Err(key_error(key, source, " must start with a letter or underscore"));
    }
    let mut i: usize = 1;
    while i < cs.len()
        invariant
            1 <= i <= cs.len(),
            cs@ == key@,
            !starts_with(key@, reserved_env_prefix()),
            is_env_key_start(key@[0]),
            forall|j: int| 1 <= j < i ==> is_env_key_char(#[trigger] key@[j]),
            first_invalid_key_char(key@, 1) == first_invalid_key_char(key@, i as int),
        decreases cs.len() - i,
    {
        let c = cs[i];
        if !(('a' <= c && c <= 'z') || ('A' <= c && c <= 'Z') || ('0' <= c && c <= '9') || c == '_') {
            assert(first_invalid_key_char(key@, i as int) == Some(i as int));
            let mut msg = key_error(key, source, " contains invalid character ");
            let d = debug_char(c);
            append_str(&mut msg, d.as_str());
            return Err(msg);
        }
        i = i + 1;
    }
    assert(first_invalid_key_char(key@, i as int) is None);
    Ok(())
}

// ── Environment maps ─────────────────────────────────────────────────────────

/// A map from variable names to values; each name occurs once.
pub struct EnvMap {
    entries: Vec<(String, String)>,
    model: Ghost<Map<Seq<char>, Seq<char>>>,
}

impl View for EnvMap {
    type V = Map<Seq<char>, Seq<char>>;

    closed spec fn view(&self) -> Map<Seq<char>, Seq<char>> {
        self.model@
    }
}

impl EnvMap {
    #[verifier::type_invariant]
    spec fn inv(self) -> bool {
        &&& forall|i: int, j: int|
            0 <= i < j < self.entries@.len() ==> self.entries@[i].0@ != self.entries@[j].0@
        &&& forall|i: int|
            0 <= i < self.entries@.len() ==> #[trigger] self.model@.contains_key(
                self.entries@[i].0@,
            ) && self.model@[self.entries@[i].0@] == self.entries@[i].1@
        &&& forall|k: Seq<char>|
            #[trigger] self.model@.contains_key(k) ==> exists|i: int|
                0 <= i < self.entries@.len() && self.entries@[i].0@ == k
    }

    /// An empty map.
    pub fn new() -> (m: EnvMap)
        ensures
            m@ == Map::<Seq<char>, Seq<char>>::empty(),
    {
        EnvMap { entries: Vec::new(), model: Ghost(Map::empty()) }
    }

    /// Position of `key` among the entries, if present.
    fn find(&self, key: &String) -> (r: Option<usize>)
        ensures
            match r {
                Some(i) => i < self.entries@.len() && self.entries@[i as int].0@ == key@,
                None => !self@.contains_key(key@),
            },
    {
        proof {
            use_type_invariant(self);
        }
        let mut i: usize = 0;
        while i < self.entries.len()
            invariant
                i <= self.entries@.len(),
                forall|j: int| 0 <= j < i ==> self.entries@[j].0@ != key@,
            decreases self.entries.len() - i,
        {
            if self.entries[i].0 == *key {
                return Some(i);
            }
            i = i + 1;
        }
        None
    }

    /// The value bound to `key`, if any.
    pub fn get(&self, key: &str) -> (r: Option<&String>)
        ensures
            match r {
                Some(v) => self@.contains_key(key@) && self@[key@] == v@,
                None => !self@.contains_key(key@),
            },
    {
        proof {
            use_type_invariant(self);
        }
        let k = to_owned_string(key);
        match self.find(&k) {
            Some(i) => {
                assert(self@.contains_key(self.entries@[i as int].0@));
                Some(&self.entries[i].1)
            },
            None => None,
        }
    }

    /// Whether `key` is bound.
    pub fn contains_key(&self, key: &str) -> (r: bool)
        ensures
            r == self@.contains_key(key@),
    {
        self.get(key).is_some()
    }

    /// Whether the map binds no key.
    pub fn is_empty(&self) -> (r: bool)
        ensures
            r == (self@ == Map::<Seq<char>, Seq<char>>::empty()),
    {
        proof {
            use_type_invariant(self);
        }
        if self.entries.len() == 0 {
            assert(self@ =~= Map::<Seq<char>, Seq<char>>::empty());
            true
        } else {
            assert(self@.contains_key(self.entries@[0].0@));
            false
        }
    }

    /// Binds `key` to `value`, replacing any earlier binding of `key`.
    pub fn insert(&mut self, key: String, value: String)
        ensures
            final(self)@ == old(self)@.insert(key@, value@),
    {
        proof {
            use_type_invariant(&*self);
        }
        let mut taken = EnvMap::new();
        std::mem::swap(self, &mut taken);
        proof {
            use_type_invariant(&taken);
        }
        let ghost old_model = taken.model@;
        let ghost old_entries = taken.entries@;
        let found = taken.find(&key);
        let EnvMap { entries, model } = taken;
        let mut entries = entries;
        let ghost new_model = old_model.insert(key@, value@);
        let ghost kv = key@;
        match found {
            Some(i) => {
                entries.set(i, (key, value));
                assert forall|a: int, b: int| 0 <= a < b < entries@.len() implies entries@[a].0@
                    != entries@[b].0@ by {
                    assert(old_entries[a].0@ != old_entries[b].0@);
                }
                assert forall|j: int| 0 <= j < entries@.len() implies #[trigger] new_model.contains_key(
                    entries@[j].0@,
                ) && new_model[entries@[j].0@] == entries@[j].1@ by {
                    if j != i {
                        assert(old_entries[j].0@ != old_entries[i as int].0@);
                        assert(old_model.contains_key(old_entries[j].0@));
                    }
                }
                assert forall|k: Seq<char>| #[trigger] new_model.contains_key(k) implies exists|
                    j: int,
                | 0 <= j < entries@.len() && entries@[j].0@ == k by {
                    if k != kv {
                        let j = choose|j: int| 0 <= j < old_entries.len() && old_entries[j].0@ == k;
                        assert(entries@[j].0@ == k);
                    } else {
                        assert(entries@[i as int].0@ == k);
                    }
                }
            },
            None => {
                assert forall|j: int| 0 <= j < old_entries.len() implies old_entries[j].0@ != kv by {
                    assert(old_model.contains_key(old_entries[j].0@));
                }
                entries.push((key, value));
                assert forall|a: int, b: int| 0 <= a < b < entries@.len() implies entries@[a].0@
                    != entries@[b].0@ by {
                    if b < old_entries.len() {
                        assert(old_entries[a].0@ != old_entries[b].0@);
                    }
                }
                assert forall|j: int| 0 <= j < entries@.len() implies #[trigger] new_model.contains_key(
                    entries@[j].0@,
                ) && new_model[entries@[j].0@] == entries@[j].1@ by {
                    if j < old_entries.len() {
                        assert(old_model.contains_key(old_entries[j].0@));
                    }
                }
                assert forall|k: Seq<char>| #[trigger] new_model.contains_key(k) implies exists|
                    j: int,
                | 0 <= j < entries@.len() && entries@[j].0@ == k by {
                    if k != kv {
                        let j = choose|j: int| 0 <= j < old_entries.len() && old_entries[j].0@ == k;
                        assert(entries@[j].0@ == k);
                    } else {
                        assert(entries@[entries@.len() - 1].0@ == k);
                    }
                }
            },
        }
        assert(forall|a: int, b: int|
            0 <= a < b < entries@.len() ==> entries@[a].0@ != entries@[b].0@);
        assert(forall|j: int|
            0 <= j < entries@.len() ==> #[trigger] new_model.contains_key(entries@[j].0@)
                && new_model[entries@[j].0@] == entries@[j].1@);
        assert(forall|k: Seq<char>|
            #[trigger] new_model.contains_key(k) ==> exists|j: int|
                0 <= j < entries@.len() && entries@[j].0@ == k);
        let ghost gm = EnvMap { entries: entries, model: Ghost(new_model) };
        assert(gm.model@ == new_model);
        assert(gm.entries@ == entries@);
        assert(gm.inv());
        *self = EnvMap { entries, model: Ghost(new_model) };
    }

    /// The bindings as `(key, value)` pairs, each key once.
    pub fn pairs(&self) -> (v: Vec<(String, String)>)
        ensures
            forall|i: int, j: int| 0 <= i < j < v@.len() ==> v@[i].0@ != v@[j].0@,
            forall|i: int|
                0 <= i < v@.len() ==> #[trigger] self@.contains_key(v@[i].0@) && self@[v@[i].0@]
                    == v@[i].1@,
            forall|k: Seq<char>|
                #[trigger] self@.contains_key(k) ==> exists|i: int| 0 <= i < v@.len() && v@[i].0@ == k,
    {
        proof {
            use_type_invariant(self);
        }
        let mut v: Vec<(String, String)> = Vec::new();
        let mut i: usize = 0;
        while i < self.entries.len()
            invariant
                i <= self.entries@.len(),
                v@.len() == i,
                forall|j: int| 0 <= j < i ==> v@[j].0@ == self.entries@[j].0@ && v@[j].1@ == self.entries@[j].1@,
            decreases self.entries.len() - i,
        {
            let k = self.entries[i].0.clone();
            let val = self.entries[i].1.clone();
            v.push((k, val));
            i = i + 1;
        }
        assert forall|k: Seq<char>| #[trigger] self@.contains_key(k) implies exists|i: int| 0 <= i < v@.len() && v@[i].0@ == k by {
            let j = choose|j: int| 0 <= j < self.entries@.len() && self.entries@[j].0@ == k;
            assert(v@[j].0@ == k);
        }
        v
    }
}

// ── env.yaml files ───────────────────────────────────────────────────────────

/// A value of a YAML mapping, as far as environment files care about it.
pub enum YamlScalar {
    Text(String),
    /// A number, in the text its YAML library prints for it.
    Number(String),
    Bool(bool),
    Null,
    /// A sequence, a mapping or a tagged value.
    Other,
}

/// One `key: value` entry of a YAML mapping; `key` is `None` when the key is not a string.
pub struct YamlEntry {
    pub key: Option<String>,
    pub value: YamlScalar,
}

pub ghost enum YamlScalarView {
    Text(Seq<char>),
    Number(Seq<char>),
    Bool(bool),
    Null,
    Other,
}

pub ghost struct YamlEntryView {
    pub key: Option<Seq<char>>,
    pub value: YamlScalarView,
}

impl View for YamlScalar {
    type V = YamlScalarView;

    open spec fn view(&self) -> YamlScalarView {
        match self {
            YamlScalar::Text(s) => YamlScalarView::Text(s@),
            YamlScalar::Number(s) => YamlScalarView::Number(s@),
            YamlScalar::Bool(b) => YamlScalarView::Bool(*b),
            YamlScalar::Null => YamlScalarView::Null,
            YamlScalar::Other => YamlScalarView::Other,
        }
    }
}

impl View for YamlEntry {
    type V = YamlEntryView;

    open spec fn view(&self) -> YamlEntryView {
        YamlEntryView { key: opt_view(self.key), value: self.value@ }
    }
}

/// The views of a list of entries.
pub open spec fn entries_view(es: Seq<YamlEntry>) -> Seq<YamlEntryView> {
    es.map_values(|e: YamlEntry| e@)
}

/// The entries of the YAML mapping in `content`, in document order, or the
/// parser's error message when `content` is not a YAML mapping.
pub uninterp spec fn yaml_mapping_entries(content: Seq<char>) -> Result<Seq<YamlEntryView>, Seq<char>>;

/// Parses `content` as a YAML mapping with `serde_yaml::from_str::<Mapping>`
/// and hands back its entries as plain values: string keys and scalar values
/// as themselves, numbers as the text `Number`'s `Display` prints, anything
/// else as `Other`; a parse failure as the error's `Display` text.
#[verifier::external_body]
fn parse_yaml_mapping(content: &str) -> (r: Result<Vec<YamlEntry>, String>)
    ensures
        match r {
            Ok(es) => yaml_mapping_entries(content@) == Ok::<Seq<YamlEntryView>, Seq<char>>(entries_view(es@)),
            Err(e) => yaml_mapping_entries(content@) == Err::<Seq<YamlEntryView>, Seq<char>>(e@),
        },
{
    let mapping = serde_yaml::from_str::<serde_yaml::Mapping>(content).map_err(|e| e.to_string())?;
    let mut out = Vec::new();
    for (k, v) in mapping {
        let value = match v {
            serde_yaml::Value::String(s) => YamlScalar::Text(s),
            serde_yaml::Value::Number(n) => YamlScalar::Number(n.to_string()),
            serde_yaml::Value::Bool(b) => YamlScalar::Bool(b),
            serde_yaml::Value::Null => YamlScalar::Null,
            _ => YamlScalar::Other,
        };
        out.push(YamlEntry { key: k.as_str().map(|s| s.to_string()), value });
    }
    Ok(out)
}

/// The text an environment variable takes from a scalar; `None` for values
/// that are not scalars.
pub open spec fn scalar_env_text(v: YamlScalarView) -> Option<Seq<char>> {
    match v {
        YamlScalarView::Text(s) => Some(s),
        YamlScalarView::Number(n) => Some(n),
        YamlScalarView::Bool(b) => Some(if b { "true"@ } else { "false"@ }),
        YamlScalarView::Null => Some(Seq::empty()),
        YamlScalarView::Other => None,
    }
}

/// What one mapping entry contributes: a checked `(key, value)` binding, or the error.
pub open spec fn env_entry(e: YamlEntryView, source: Seq<char>) -> Result<(Seq<char>, Seq<char>), Seq<char>> {
    match e.key {
        None => Err("Non-string key in "@ + source),
        Some(key) => match scalar_env_text(e.value) {
            None => Err("Unsupported value for key "@ + str_debug_text(key) + " in "@ + source),
            Some(value) => match env_key_check(key, source) {
                Err(msg) => Err(msg),
                Ok(()) => Ok((key, value)),
            },
        },
    }
}

/// The bindings of the first `n` entries, or the first entry error among them.
pub open spec fn env_from_entries_prefix(es: Seq<YamlEntryView>, source: Seq<char>, n: int) -> Result<
    Map<Seq<char>, Seq<char>>,
    Seq<char>,
>
    decreases n,
{
    if n <= 0 {
        Ok(Map::empty())
    } else {
        match env_from_entries_prefix(es, source, n - 1) {
            Err(msg) => Err(msg),
            Ok(m) => match env_entry(es[n - 1], source) {
                Err(msg) => Err(msg),
                Ok(kv) => Ok(m.insert(kv.0, kv.1)),
            },
        }
    }
}

/// The bindings of all entries, or the first entry error.
pub open spec fn env_from_entries_spec(es: Seq<YamlEntryView>, source: Seq<char>) -> Result<
    Map<Seq<char>, Seq<char>>,
    Seq<char>,
> {
    env_from_entries_prefix(es, source, es.len() as int)
}

/// The view of an environment result.
pub open spec fn env_result_view(r: Result<EnvMap, String>) -> Result<Map<Seq<char>, Seq<char>>, Seq<char>> {
    match r {
        Ok(m) => Ok(m@),
        Err(e) => Err(e@),
    }
}

proof fn lemma_env_error_persists(es: Seq<YamlEntryView>, source: Seq<char>, m: int, n: int)
    requires
        0 <= m <= n,
        env_from_entries_prefix(es, source, m) is Err,
    ensures
        env_from_entries_prefix(es, source, n) == env_from_entries_prefix(es, source, m),
    decreases n - m,
{
    if n > m {
        lemma_env_error_persists(es, source, m, n - 1);
    }
}

/// Turns the entries of an environment file into bindings, checking that
/// each key is a string, each value a scalar, and each key valid.
/// Numbers and booleans become their text; null becomes the empty string.
pub fn env_from_entries(entries: &Vec<YamlEntry>, source: &str) -> (r: Result<EnvMap, String>)
    ensures
        env_result_view(r) == env_from_entries_spec(entries_view(entries@), source@),
{
    let ghost es = entries_view(entries@);
    let mut env = EnvMap::new();
    let mut i: usize = 0;
    while i < entries.len()
        invariant
            i <= entries@.len(),
            es == entries_view(entries@),
            env_from_entries_prefix(es, source@, i as int) == Ok::<Map<Seq<char>, Seq<char>>, Seq<char>>(env@),
        decreases entries.len() - i,
    {
        let e = &entries[i];
        assert(es[i as int] == e@);
        match &e.key {
            None => {
                let mut msg = String::new();
                append_str(&mut msg, "Non-string key in ");
                append_str(&mut msg, source);
                proof {
                    lemma_env_error_persists(es, source@, i + 1, es.len() as int);
                }
                return Err(msg);
            },
            Some(key) => {
                let value: String = match &e.value {
                    YamlScalar::Text(s) => s.clone(),
                    YamlScalar::Number(n) => n.clone(),
                    YamlScalar::Bool(b) => {
                        let mut t = String::new();
                        if *b {
                            append_str(&mut t, "true");
                        } else {
                            append_str(&mut t, "false");
                        }
                        t
                    },
                    YamlScalar::Null => String::new(),
                    YamlScalar::Other => {
                        let mut msg = String::new();
                        append_str(&mut msg, "Unsupported value for key ");
                        let d = debug_str(key.as_str());
                        append_str(&mut msg, d.as_str());
                        append_str(&mut msg, " in ");
                        append_str(&mut msg, source);
                        proof {
                            lemma_env_error_persists(es, source@, i + 1, es.len() as int);
                        }
                        return Err(msg);
                    },
                };
                assert(scalar_env_text(e.value@) == Some(value@));
                match validate_env_key(key.as_str(), source) {
                    Err(msg) => {
                        proof {
                            lemma_env_error_persists(es, source@, i + 1, es.len() as int);
                        }
                        return Err(msg);
                    },
                    Ok(()) => {},
                }
                env.insert(key.clone(), value);
            },
        }
        i = i + 1;
    }
    Ok(env)
}

/// Bindings read from the text of an environment file: none for a blank
/// file, the parse error, or the checked entries of its mapping.
pub open spec fn env_from_yaml_spec(content: Seq<char>, source: Seq<char>) -> Result<
    Map<Seq<char>, Seq<char>>,
    Seq<char>,
> {
    if is_blank(content) {
        Ok(Map::empty())
    } else {
        match yaml_mapping_entries(content) {
            Err(e) => Err("Could not parse "@ + source + ": "@ + e),
            Ok(es) => env_from_entries_spec(es, source),
        }
    }
}

/// Reads the bindings of an environment file from its text; `source` names
/// the file in error messages.
pub fn env_from_yaml_text(content: &str, source: &str) -> (r: Result<EnvMap, String>)
    ensures
        env_result_view(r) == env_from_yaml_spec(content@, source@),
{
    if is_blank_str(content) {
        return Ok(EnvMap::new());
    }
    match parse_yaml_mapping(content) {
        Err(e) => {
            let mut msg = String::new();
            append_str(&mut msg, "Could not parse ");
            append_str(&mut msg, source);
            append_str(&mut msg, ": ");
            append_str(&mut msg, e.as_str());
            Err(msg)
        },
        Ok(entries) => env_from_entries(&entries, source),
    }
}

/// What was found where an environment file may live.
pub enum EnvFile {
    /// No file there.
    Missing,
    /// The file exists but could not be read; the I/O error's text.
    Unreadable(String),
    /// The file's text.
    Contents(String),
}

pub ghost enum EnvFileView {
    Missing,
    Unreadable(Seq<char>),
    Contents(Seq<char>),
}

impl View for EnvFile {
    type V = EnvFileView;

    open spec fn view(&self) -> EnvFileView {
        match self {
            EnvFile::Missing => EnvFileView::Missing,
            EnvFile::Unreadable(e) => EnvFileView::Unreadable(e@),
            EnvFile::Contents(c) => EnvFileView::Contents(c@),
        }
    }
}

/// The bindings an environment file contributes: none when it is missing.
pub open spec fn env_file_spec(file: EnvFileView, source: Seq<char>) -> Result<
    Map<Seq<char>, Seq<char>>,
    Seq<char>,
> {
    match file {
        EnvFileView::Missing => Ok(Map::empty()),
        EnvFileView::Unreadable(e) => Err("Could not read "@ + source + ": "@ + e),
        EnvFileView::Contents(c) => env_from_yaml_spec(c, source),
    }
}

/// Loads the bindings of one environment file (`env.yaml`). A missing file
/// gives no bindings; non-scalar values and invalid keys are rejected.
pub fn load_env_file(file: &EnvFile, source: &str) -> (r: Result<EnvMap, String>)
    ensures
        env_result_view(r) == env_file_spec(file@, source@),
{
    match file {
        EnvFile::Missing => Ok(EnvMap::new()),
        EnvFile::Unreadable(e) => {
            let mut msg = String::new();
            append_str(&mut msg, "Could not read ");
            append_str(&mut msg, source);
            append_str(&mut msg, ": ");
            append_str(&mut msg, e.as_str());
            Err(msg)
        },
        EnvFile::Contents(c) => env_from_yaml_text(c.as_str(), source),
    }
}

/// Adds every binding of `more` to `target`, replacing bindings of the same keys.
pub fn extend_env(target: &mut EnvMap, more: &EnvMap)
    ensures
        final(target)@ == old(target)@.union_prefer_right(more@),
{
    let p = more.pairs();
    let ghost base = target@;
    let mut i: usize = 0;
    while i < p.len()
        invariant
            i <= p@.len(),
            forall|a: int, b: int| 0 <= a < b < p@.len() ==> p@[a].0@ != p@[b].0@,
            forall|a: int|
                0 <= a < p@.len() ==> #[trigger] more@.contains_key(p@[a].0@) && more@[p@[a].0@]
                    == p@[a].1@,
            forall|k: Seq<char>|
                #[trigger] more@.contains_key(k) ==> exists|a: int| 0 <= a < p@.len() && p@[a].0@ == k,
            forall|k: Seq<char>|
                #[trigger] target@.contains_key(k) <==> (base.contains_key(k) || exists|a: int|
                    0 <= a < i && p@[a].0@ == k),
            forall|a: int| 0 <= a < i ==> target@[#[trigger] p@[a].0@] == p@[a].1@,
            forall|k: Seq<char>|
                base.contains_key(k) && (forall|a: int| 0 <= a < i ==> p@[a].0@ != k) ==> #[trigger] target@[k]
                    == base[k],
        decreases p.len() - i,
    {
        let k = p[i].0.clone();
        let v = p[i].1.clone();
        let ghost old_t = target@;
        target.insert(k, v);
        assert forall|a: int| 0 <= a < i + 1 implies target@[#[trigger] p@[a].0@] == p@[a].1@ by {
            if a < i {
                assert(p@[a].0@ != p@[i as int].0@);
            }
        }
        assert forall|kk: Seq<char>| #[trigger] target@.contains_key(kk) <==> (base.contains_key(kk)
            || exists|a: int| 0 <= a < i + 1 && p@[a].0@ == kk) by {
            if kk == p@[i as int].0@ {
                assert(0 <= i < i + 1 && p@[i as int].0@ == kk);
            }
            if exists|a: int| 0 <= a < i + 1 && p@[a].0@ == kk {
                let a = choose|a: int| 0 <= a < i + 1 && p@[a].0@ == kk;
                if a < i {
                    assert(old_t.contains_key(kk));
                }
            }
        }
        i = i + 1;
    }
    let ghost want = base.union_prefer_right(more@);
    assert forall|k: Seq<char>| #[trigger] target@.contains_key(k) <==> want.contains_key(k) by {
        if more@.contains_key(k) {
            let a = choose|a: int| 0 <= a < p@.len() && p@[a].0@ == k;
        }
        if exists|a: int| 0 <= a < i && p@[a].0@ == k {
            let a = choose|a: int| 0 <= a < i && p@[a].0@ == k;
            assert(more@.contains_key(p@[a].0@));
        }
    }
    assert forall|k: Seq<char>| #[trigger] target@.contains_key(k) implies target@[k] == want[k] by {
        if more@.contains_key(k) {
            let a = choose|a: int| 0 <= a < p@.len() && p@[a].0@ == k;
            assert(target@[p@[a].0@] == p@[a].1@);
        } else {
            assert forall|a: int| 0 <= a < i implies p@[a].0@ != k by {
                assert(more@.contains_key(p@[a].0@));
            }
        }
    }
    assert(target@ =~= want);
}

/// The merged user environment: the global file, then the command
/// directory's sidecar file, then the command's inline bindings, each layer
/// overriding the ones before it.
pub open spec fn merged_user_env(
    global: Map<Seq<char>, Seq<char>>,
    sidecar: Map<Seq<char>, Seq<char>>,
    inline: Map<Seq<char>, Seq<char>>,
) -> Map<Seq<char>, Seq<char>> {
    global.union_prefer_right(sidecar).union_prefer_right(inline)
}

/// The source named in errors about inline bindings.
pub open spec fn inline_env_source() -> Seq<char> {
    "inline env"@
}

/// Builds the merged user-defined environment by applying the layers in
/// order: the global `env.yaml` → the command directory's sidecar
/// `env.yaml` → the inline `env:` of the command. All keys are validated;
/// keys in the reserved `NIMBLE_` namespace are rejected.
pub fn build_user_env(
    global: &EnvFile,
    global_source: &str,
    sidecar: &EnvFile,
    sidecar_source: &str,
    inline_env: &EnvMap,
) -> (r: Result<EnvMap, String>)
    ensures
        env_file_spec(global@, global_source@) matches Err(e) ==> env_result_view(r) == Err::<
            Map<Seq<char>, Seq<char>>,
            Seq<char>,
        >(e),
        env_file_spec(global@, global_source@) matches Ok(g) ==> (env_file_spec(
            sidecar@,
            sidecar_source@,
        ) matches Err(e) ==> env_result_view(r) == Err::<Map<Seq<char>, Seq<char>>, Seq<char>>(e)),
        env_file_spec(global@, global_source@) matches Ok(g) ==> (env_file_spec(
            sidecar@,
            sidecar_source@,
        ) matches Ok(s) ==> {
            &&& (forall|k: Seq<char>| #[trigger] inline_env@.contains_key(k) ==> is_valid_env_key(k))
                ==> env_result_view(r) == Ok::<Map<Seq<char>, Seq<char>>, Seq<char>>(
                merged_user_env(g, s, inline_env@),
            )
            &&& !(forall|k: Seq<char>| #[trigger] inline_env@.contains_key(k) ==> is_valid_env_key(k))
                ==> (r matches Err(e) && exists|k: Seq<char>|
                inline_env@.contains_key(k) && !is_valid_env_key(k) && env_key_check(
                    k,
                    inline_env_source(),
                ) == Err::<(), Seq<char>>(e@))
        }),
        r matches Ok(m) ==> forall|k: Seq<char>| #[trigger] m@.contains_key(k) ==> is_valid_env_key(k),
{
    let mut merged = match load_env_file(global, global_source) {
        Ok(m) => m,
        Err(e) => return Err(e),
    };
    let side = match load_env_file(sidecar, sidecar_source) {
        Ok(m) => m,
        Err(e) => return Err(e),
    };
    let ghost g = merged@;
    let ghost sm = side@;
    assert(env_file_spec(global@, global_source@) == Ok::<Map<Seq<char>, Seq<char>>, Seq<char>>(g));
    assert(env_file_spec(sidecar@, sidecar_source@) == Ok::<Map<Seq<char>, Seq<char>>, Seq<char>>(sm));
    proof {
        env_file_keys_are_valid(global@, global_source@, g);
        env_file_keys_are_valid(sidecar@, sidecar_source@, sm);
    }
    extend_env(&mut merged, &side);
    let p = inline_env.pairs();
    let mut i: usize = 0;
    while i < p.len()
        invariant
            i <= p@.len(),
            forall|a: int| 0 <= a < i ==> is_valid_env_key(#[trigger] p@[a].0@),
            forall|a: int|
                0 <= a < p@.len() ==> #[trigger] inline_env@.contains_key(p@[a].0@),
            env_file_spec(global@, global_source@) == Ok::<Map<Seq<char>, Seq<char>>, Seq<char>>(g),
            env_file_spec(sidecar@, sidecar_source@) == Ok::<Map<Seq<char>, Seq<char>>, Seq<char>>(sm),
            merged@ == g.union_prefer_right(sm),
            forall|k: Seq<char>| #[trigger] g.contains_key(k) ==> is_valid_env_key(k),
            forall|k: Seq<char>| #[trigger] sm.contains_key(k) ==> is_valid_env_key(k),
        decreases p.len() - i,
    {
        match validate_env_key(p[i].0.as_str(), "inline env") {
            Err(e) => {
                assert(inline_env@.contains_key(p@[i as int].0@));
                return Err(e);
            },
            Ok(()) => {},
        }
        i = i + 1;
    }
    assert forall|k: Seq<char>| #[trigger] inline_env@.contains_key(k) implies is_valid_env_key(k) by {
        let a = choose|a: int| 0 <= a < p@.len() && p@[a].0@ == k;
        assert(is_valid_env_key(p@[a].0@));
    }
    extend_env(&mut merged, inline_env);
    assert forall|k: Seq<char>| #[trigger] merged@.contains_key(k) implies is_valid_env_key(k) by {
        if inline_env@.contains_key(k) {
        } else if sm.contains_key(k) {
        } else {
            assert(g.contains_key(k));
        }
    }
    Ok(merged)
}

// ── Script environment ───────────────────────────────────────────────────────

/// The operating system the launcher was built for.
#[derive(Clone, Copy, PartialEq, Eq, Debug)]
pub enum TargetOs {
    MacOs,
    Windows,
    /// Any other system; scripts are told it is Linux.
    Other,
}

/// The value of `NIMBLE_OS` for a target.
pub open spec fn os_label(os: TargetOs) -> Seq<char> {
    match os {
        TargetOs::MacOs => "macos"@,
        TargetOs::Windows => "windows"@,
        TargetOs::Other => "linux"@,
    }
}

/// The value of `NIMBLE_OS` for a target.
pub fn os_name(os: TargetOs) -> (r: &'static str)
    ensures
        r@ == os_label(os),
{
    match os {
        TargetOs::MacOs => "macos",
        TargetOs::Windows => "windows",
        TargetOs::Other => "linux",
    }
}

/// Runtime context handed to every script as `NIMBLE_*` environment
/// variables, with the user-defined variables.
pub struct ScriptEnv<'a> {
    /// Active context string (may be empty).
    pub context: &'a str,
    /// Command phrase that triggered the script.
    pub phrase: &'a str,
    /// The config root directory, as text.
    pub config_dir: &'a str,
    /// The directory holding the command file, as text.
    pub command_dir: &'a str,
    /// Merged user-defined environment variables (global → sidecar → inline).
    pub user_env: &'a EnvMap,
}

/// The built-in variables, in the order they are set.
pub open spec fn builtin_env(
    context: Seq<char>,
    phrase: Seq<char>,
    config_dir: Seq<char>,
    command_dir: Seq<char>,
    os: TargetOs,
    version: Seq<char>,
) -> Seq<(Seq<char>, Seq<char>)> {
    seq![
        ("NIMBLE_CONTEXT"@, context),
        ("NIMBLE_PHRASE"@, phrase),
        ("NIMBLE_CONFIG_DIR"@, config_dir),
        ("NIMBLE_COMMAND_DIR"@, command_dir),
        ("NIMBLE_OS"@, os_label(os)),
        ("NIMBLE_VERSION"@, version),
    ]
}

/// The environment a process ends up with after setting `vars` in order:
/// a later setting of a name replaces an earlier one.
pub open spec fn env_after(vars: Seq<(Seq<char>, Seq<char>)>) -> Map<Seq<char>, Seq<char>>
    decreases vars.len(),
{
    if vars.len() == 0 {
        Map::empty()
    } else {
        env_after(vars.drop_last()).insert(vars.last().0, vars.last().1)
    }
}

/// The views of a list of `(name, value)` settings.
pub open spec fn vars_view(v: Seq<(String, String)>) -> Seq<(Seq<char>, Seq<char>)> {
    v.map_values(|p: (String, String)| (p.0@, p.1@))
}

proof fn lemma_env_after_append(a: Seq<(Seq<char>, Seq<char>)>, b: Seq<(Seq<char>, Seq<char>)>)
    ensures
        env_after(a + b) == env_after(a).union_prefer_right(env_after(b)),
    decreases b.len(),
{
    if b.len() == 0 {
        assert(a + b =~= a);
        assert(env_after(a).union_prefer_right(Map::empty()) =~= env_after(a));
    } else {
        assert((a + b).drop_last() =~= a + b.drop_last());
        lemma_env_after_append(a, b.drop_last());
        assert(env_after(a + b) =~= env_after(a).union_prefer_right(env_after(b)));
    }
}

proof fn lemma_env_after_distinct(u: Seq<(Seq<char>, Seq<char>)>)
    requires
        forall|i: int, j: int| 0 <= i < j < u.len() ==> u[i].0 != u[j].0,
    ensures
        forall|k: Seq<char>|
            #[trigger] env_after(u).contains_key(k) <==> exists|i: int| 0 <= i < u.len() && u[i].0 == k,
        forall|i: int| 0 <= i < u.len() ==> env_after(u)[#[trigger] u[i].0] == u[i].1,
    decreases u.len(),
{
    if u.len() > 0 {
        lemma_env_after_distinct(u.drop_last());
        let m = env_after(u);
        assert forall|k: Seq<char>| #[trigger] m.contains_key(k) <==> exists|i: int|
            0 <= i < u.len() && u[i].0 == k by {
            if exists|i: int| 0 <= i < u.len() && u[i].0 == k {
                let i = choose|i: int| 0 <= i < u.len() && u[i].0 == k;
                if i < u.len() - 1 {
                    assert(u.drop_last()[i].0 == k);
                }
            }
            if env_after(u.drop_last()).contains_key(k) {
                let i = choose|i: int| 0 <= i < u.drop_last().len() && u.drop_last()[i].0 == k;
                assert(u[i].0 == k);
            }
        }
        assert forall|i: int| 0 <= i < u.len() implies env_after(u)[#[trigger] u[i].0] == u[i].1 by {
            if i < u.len() - 1 {
                assert(u.drop_last()[i] == u[i]);
                assert(u[i].0 != u[u.len() - 1].0);
            }
        }
    }
}

/// The settings applied to a script's process, in order: the user-defined
/// variables first, then the built-in `NIMBLE_*` variables, so that the
/// built-ins always take precedence.
pub fn inject_env(env: &ScriptEnv, os: TargetOs, version: &str) -> (vars: Vec<(String, String)>)
    ensures
        vars@.len() >= 6,
        vars_view(vars@).skip(vars@.len() - 6) == builtin_env(
            env.context@,
            env.phrase@,
            env.config_dir@,
            env.command_dir@,
            os,
            version@,
        ),
        env_after(vars_view(vars@).take(vars@.len() - 6)) == env.user_env@,
        forall|i: int, j: int| 0 <= i < j < vars@.len() - 6 ==> vars@[i].0@ != vars@[j].0@,
        env_after(vars_view(vars@)) == env.user_env@.union_prefer_right(
            env_after(
                builtin_env(
                    env.context@,
                    env.phrase@,
                    env.config_dir@,
                    env.command_dir@,
                    os,
                    version@,
                ),
            ),
        ),
{
    let mut vars = env.user_env.pairs();
    let n = vars.len();
    let ghost user = vars_view(vars@);
    proof {
        assert forall|i: int, j: int| 0 <= i < j < user.len() implies user[i].0 != user[j].0 by {
            assert(vars@[i].0@ != vars@[j].0@);
        }
        lemma_env_after_distinct(user);
        assert forall|k: Seq<char>| #[trigger] env_after(user).contains_key(k) <==> env.user_env@.contains_key(k) by {
            if env.user_env@.contains_key(k) {
                let i = choose|i: int| 0 <= i < vars@.len() && vars@[i].0@ == k;
                assert(user[i].0 == k);
            }
            if exists|i: int| 0 <= i < user.len() && user[i].0 == k {
                let i = choose|i: int| 0 <= i < user.len() && user[i].0 == k;
                assert(env.user_env@.contains_key(vars@[i].0@));
            }
        }
        assert forall|k: Seq<char>| #[trigger] env_after(user).contains_key(k) implies env_after(user)[k]
            == env.user_env@[k] by {
            let i = choose|i: int| 0 <= i < user.len() && user[i].0 == k;
            assert(env.user_env@.contains_key(vars@[i].0@));
        }
        assert(env_after(user) =~= env.user_env@);
    }
    vars.push((to_owned_string("NIMBLE_CONTEXT"), to_owned_string(env.context)));
    vars.push((to_owned_string("NIMBLE_PHRASE"), to_owned_string(env.phrase)));
    vars.push((to_owned_string("NIMBLE_CONFIG_DIR"), to_owned_string(env.config_dir)));
    vars.push((to_owned_string("NIMBLE_COMMAND_DIR"), to_owned_string(env.command_dir)));
    vars.push((to_owned_string("NIMBLE_OS"), to_owned_string(os_name(os))));
    vars.push((to_owned_string("NIMBLE_VERSION"), to_owned_string(version)));
    let ghost b = builtin_env(env.context@, env.phrase@, env.config_dir@, env.command_dir@, os, version@);
    proof {
        assert(vars_view(vars@).skip(n as int) =~= b);
        assert(vars_view(vars@).take(n as int) =~= user);
        assert(vars_view(vars@) =~= user + b);
        lemma_env_after_append(user, b);
    }
    vars
}

// ── Laws of the environment ──────────────────────────────────────────────────

proof fn lemma_key_check_ok(key: Seq<char>, source: Seq<char>)
    ensures
        env_key_check(key, source) is Ok <==> is_valid_env_key(key),
{
    if key.len() > 0 {
        lemma_first_invalid_none(key, 1);
        if let Some(i) = first_invalid_key_char(key, 1) {
            lemma_first_invalid_some(key, 1);
        }
    }
}

proof fn lemma_first_invalid_some(key: Seq<char>, i: int)
    requires
        0 <= i,
        first_invalid_key_char(key, i) is Some,
    ensures
        ({
            let j = first_invalid_key_char(key, i).unwrap();
            i <= j < key.len() && !is_env_key_char(key[j])
        }),
    decreases key.len() - i,
{
    if i < key.len() && is_env_key_char(key[i]) {
        lemma_first_invalid_some(key, i + 1);
    }
}

proof fn lemma_entries_keys_valid(
    es: Seq<YamlEntryView>,
    source: Seq<char>,
    n: int,
    m: Map<Seq<char>, Seq<char>>,
)
    requires
        env_from_entries_prefix(es, source, n) == Ok::<Map<Seq<char>, Seq<char>>, Seq<char>>(m),
    ensures
        forall|k: Seq<char>| #[trigger] m.contains_key(k) ==> is_valid_env_key(k),
    decreases n,
{
    if n > 0 {
        let prev = env_from_entries_prefix(es, source, n - 1);
        let e = es[n - 1];
        if let Ok(pm) = prev {
            lemma_entries_keys_valid(es, source, n - 1, pm);
            if let Some(key) = e.key {
                lemma_key_check_ok(key, source);
            }
        }
    } else {
        assert(m =~= Map::<Seq<char>, Seq<char>>::empty());
    }
}

/// Every key an environment file yields is a valid key: a portable name
/// outside the reserved `NIMBLE_` namespace.
pub proof fn env_file_keys_are_valid(file: EnvFileView, source: Seq<char>, m: Map<Seq<char>, Seq<char>>)
    requires
        env_file_spec(file, source) == Ok::<Map<Seq<char>, Seq<char>>, Seq<char>>(m),
    ensures
        forall|k: Seq<char>| #[trigger] m.contains_key(k) ==> is_valid_env_key(k),
{
    if let EnvFileView::Contents(c) = file {
        if !is_blank(c) {
            if let Ok(es) = yaml_mapping_entries(c) {
                lemma_entries_keys_valid(es, source, es.len() as int, m);
            }
        }
    }
}

/// The names of the built-in variables.
pub open spec fn is_builtin_name(k: Seq<char>) -> bool {
    k == "NIMBLE_CONTEXT"@ || k == "NIMBLE_PHRASE"@ || k == "NIMBLE_CONFIG_DIR"@ || k
        == "NIMBLE_COMMAND_DIR"@ || k == "NIMBLE_OS"@ || k == "NIMBLE_VERSION"@
}

/// Built-in variables always win: whatever the user environment holds
/// (even a `NIMBLE_*` name that escaped validation), a script sees the
/// launcher's own values for the built-in names, and the user's values for
/// every other name.
pub proof fn builtins_take_precedence(
    user: Map<Seq<char>, Seq<char>>,
    context: Seq<char>,
    phrase: Seq<char>,
    config_dir: Seq<char>,
    command_dir: Seq<char>,
    os: TargetOs,
    version: Seq<char>,
)
    ensures
        ({
            let seen = user.union_prefer_right(
                env_after(builtin_env(context, phrase, config_dir, command_dir, os, version)),
            );
            &&& seen["NIMBLE_CONTEXT"@] == context
            &&& seen["NIMBLE_PHRASE"@] == phrase
            &&& seen["NIMBLE_CONFIG_DIR"@] == config_dir
            &&& seen["NIMBLE_COMMAND_DIR"@] == command_dir
            &&& seen["NIMBLE_OS"@] == os_label(os)
            &&& seen["NIMBLE_VERSION"@] == version
            &&& forall|k: Seq<char>|
                #[trigger] user.contains_key(k) && !is_builtin_name(k) ==> seen.contains_key(k)
                    && seen[k] == user[k]
        }),
{
    reveal_strlit("NIMBLE_CONTEXT");
    reveal_strlit("NIMBLE_PHRASE");
    reveal_strlit("NIMBLE_CONFIG_DIR");
    reveal_strlit("NIMBLE_COMMAND_DIR");
    reveal_strlit("NIMBLE_OS");
    reveal_strlit("NIMBLE_VERSION");
    let b = builtin_env(context, phrase, config_dir, command_dir, os, version);
    assert("NIMBLE_CONTEXT"@.len() == 14 && "NIMBLE_PHRASE"@.len() == 13);
    assert("NIMBLE_CONFIG_DIR"@.len() == 17 && "NIMBLE_COMMAND_DIR"@.len() == 18);
    assert("NIMBLE_OS"@.len() == 9 && "NIMBLE_VERSION"@.len() == 14);
    assert("NIMBLE_CONTEXT"@[7] != "NIMBLE_VERSION"@[7]);
    assert(forall|i: int, j: int| 0 <= i < j < b.len() ==> b[i].0 != b[j].0);
    lemma_env_after_distinct(b);
    assert(b[0].0 == "NIMBLE_CONTEXT"@);
    assert(b[1].0 == "NIMBLE_PHRASE"@);
    assert(b[2].0 == "NIMBLE_CONFIG_DIR"@);
    assert(b[3].0 == "NIMBLE_COMMAND_DIR"@);
    assert(b[4].0 == "NIMBLE_OS"@);
    assert(b[5].0 == "NIMBLE_VERSION"@);
    let eb = env_after(b);
    assert forall|k: Seq<char>| #[trigger] user.contains_key(k) && !is_builtin_name(k) implies !eb.contains_key(k) by {
        if eb.contains_key(k) {
            let i = choose|i: int| 0 <= i < b.len() && b[i].0 == k;
        }
    }
}

/// A scalar value is bound to its own text: a boolean to the text it prints
/// (`KEY: false` binds `false`, `KEY: true` binds `true`, so the two never
/// coincide), a number to the text the YAML library prints for it, a string
/// to itself and null to the empty text.
pub proof fn scalars_bind_their_own_text(key: Seq<char>, source: Seq<char>, b: bool, t: Seq<char>)
    requires
        is_valid_env_key(key),
    ensures
        env_from_entries_spec(
            seq![YamlEntryView { key: Some(key), value: YamlScalarView::Bool(b) }],
            source,
        ) == Ok::<Map<Seq<char>, Seq<char>>, Seq<char>>(
            Map::empty().insert(key, if b { "true"@ } else { "false"@ }),
        ),
        "true"@ != "false"@,
        env_from_entries_spec(
            seq![YamlEntryView { key: Some(key), value: YamlScalarView::Text(t) }],
            source,
        ) == Ok::<Map<Seq<char>, Seq<char>>, Seq<char>>(Map::empty().insert(key, t)),
        env_from_entries_spec(
            seq![YamlEntryView { key: Some(key), value: YamlScalarView::Number(t) }],
            source,
        ) == Ok::<Map<Seq<char>, Seq<char>>, Seq<char>>(Map::empty().insert(key, t)),
        env_from_entries_spec(
            seq![YamlEntryView { key: Some(key), value: YamlScalarView::Null }],
            source,
        ) == Ok::<Map<Seq<char>, Seq<char>>, Seq<char>>(Map::empty().insert(key, Seq::empty())),
{
    lemma_key_check_ok(key, source);
    reveal_strlit("true");
    reveal_strlit("false");
    assert("true"@.len() != "false"@.len());
    reveal_with_fuel(env_from_entries_prefix, 2);
}

} // verus!
