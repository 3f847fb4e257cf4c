//! Resolution of `open_url` targets: `{param}` substitution with
//! form-style percent-encoding, followed by a URL-scheme check.

use vstd::prelude::*;
use vstd::string::*;
use vstd::utf8::encode_utf8;
use crate::text::{append_chars, append_str, chars_of, opt_view, result_view, string_from_chars};

verus! {

/// Bytes that stay as themselves in an encoded parameter:
/// ASCII letters, digits, and `-` `_` `.` `~`.
pub open spec fn is_unreserved_byte(b: u8) -> bool {
    (0x41 <= b <= 0x5A) || (0x61 <= b <= 0x7A) || (0x30 <= b <= 0x39)
        || b == 0x2D || b == 0x5F || b == 0x2E || b == 0x7E
}

/// The upper-case hexadecimal digit for `n` (`n < 16`).
pub open spec fn hex_digit(n: int) -> char {
    if n < 10 { (48 + n) as char } else { (55 + n) as char }
}

/// How one byte of the parameter is written into the URL: unreserved bytes
/// as themselves, a space as `+`, everything else as `%XX`.
pub open spec fn encode_byte(b: u8) -> Seq<char> {
    if is_unreserved_byte(b) {
        seq![b as char]
    } else if b == 0x20 {
        seq!['+']
    } else {
        seq!['%', hex_digit((b / 16) as int), hex_digit((b % 16) as int)]
    }
}

/// The encoding of a whole byte string: each byte encoded in turn.
pub open spec fn encode_bytes(bs: Seq<u8>) -> Seq<char>
    decreases bs.len(),
{
    if bs.len() == 0 {
        Seq::empty()
    } else {
        encode_bytes(bs.drop_last()) + encode_byte(bs.last())
    }
}

/// The encoded form of a parameter: its UTF-8 bytes, encoded.
pub open spec fn encode_param(p: Seq<char>) -> Seq<char> {
    encode_bytes(encode_utf8(p))
}

/// The placeholder token replaced by the parameter.
pub open spec fn placeholder() -> Seq<char> {
    seq!['{', 'p', 'a', 'r', 'a', 'm', '}']
}

/// Whether `pat` occurs in `s` at position `i`.
pub open spec fn occurs_at(s: Seq<char>, pat: Seq<char>, i: int) -> bool {
    0 <= i && i + pat.len() <= s.len() && s.subrange(i, i + pat.len()) == pat
}

/// `s` with every occurrence of the non-empty `pat` replaced by `rep`,
/// scanning left to right and never overlapping two occurrences.
pub open spec fn replace_all(s: Seq<char>, pat: Seq<char>, rep: Seq<char>) -> Seq<char>
    decreases s.len(),
{
    if s.len() == 0 {
        s
    } else if pat.len() > 0 && occurs_at(s, pat, 0) {
        rep + replace_all(s.skip(pat.len() as int), pat, rep)
    } else {
        seq![s[0]] + replace_all(s.skip(1), pat, rep)
    }
}

/// The URL after parameter substitution (no substitution without a parameter).
pub open spec fn substituted(url: Seq<char>, param: Option<Seq<char>>) -> Seq<char> {
    match param {
        Some(p) => replace_all(url, placeholder(), encode_param(p)),
        None => url,
    }
}

pub open spec fn is_ascii_alpha(c: char) -> bool {
    ('a' <= c <= 'z') || ('A' <= c <= 'Z')
}

pub open spec fn is_ascii_digit(c: char) -> bool {
    '0' <= c <= '9'
}

/// A character allowed in a URL scheme after its first letter.
pub open spec fn is_scheme_char(c: char) -> bool {
    is_ascii_alpha(c) || is_ascii_digit(c) || c == '+' || c == '-' || c == '.'
}

/// A well-formed scheme (RFC 3986): a letter followed by letters, digits, `+`, `-`, `.`.
pub open spec fn is_valid_scheme(sch: Seq<char>) -> bool {
    &&& sch.len() > 0
    &&& is_ascii_alpha(sch[0])
    &&& forall|j: int| 0 <= j < sch.len() ==> is_scheme_char(#[trigger] sch[j])
}

/// `i` is the position of the first `:` in `s`.
pub open spec fn is_first_colon(s: Seq<char>, i: int) -> bool {
    &&& 0 <= i < s.len()
    &&& s[i] == ':'
    &&& forall|j: int| 0 <= j < i ==> #[trigger] s[j] != ':'
}

/// `s` has a `:` and the text before the first one is a valid scheme.
pub open spec fn has_valid_scheme(s: Seq<char>) -> bool {
    exists|i: int| is_first_colon(s, i) && is_valid_scheme(#[trigger] s.take(i))
}

/// The text that starts the error for a URL without a valid scheme.
pub open spec fn rejected_url_prefix() -> Seq<char> {
    "Rejected URL with missing or invalid scheme: "@
}

/// What `resolve_url` gives for `url` and `param`.
pub open spec fn resolved_url(url: Seq<char>, param: Option<Seq<char>>) -> Result<Seq<char>, Seq<char>> {
    let r = substituted(url, param);
    if has_valid_scheme(r) {
        Ok(r)
    } else {
        Err(rejected_url_prefix() + r)
    }
}

fn hex_digit_char(n: u8) -> (c: char)
    requires
        n < 16,
    ensures
        c == hex_digit(n as int),
{
    if n < 10 {
        ((48 + n) as char)
    } else {
        ((55 + n) as char)
    }
}

/// Appends the encoding of byte `b` to `out`.
fn push_encoded_byte(out: &mut Vec<char>, b: u8)
    ensures
        final(out)@ == old(out)@ + encode_byte(b),
{
    if (0x41 <= b && b <= 0x5A) || (0x61 <= b && b <= 0x7A) || (0x30 <= b && b <= 0x39)
        || b == 0x2D || b == 0x5F || b == 0x2E || b == 0x7E {
        out.push(b as char);
    } else if b == 0x20 {
        out.push('+');
    } else {
        out.push('%');
        out.push(hex_digit_char(b / 16));
        out.push(hex_digit_char(b % 16));
    }
}

/// The percent-encoded form of `p`, as characters.
pub fn encode_param_chars(p: &str) -> (v: Vec<char>)
    ensures
        v@ == encode_param(p@),
{
    let bytes = p.as_bytes();
    let mut v: Vec<char> = Vec::new();
    let mut i: usize = 0;
    while i < bytes.len()
        invariant
            i <= bytes@.len(),
            bytes@ == encode_utf8(p@),
            v@ == encode_bytes(bytes@.take(i as int)),
        decreases bytes.len() - i,
    {
        let b = bytes[i];
        push_encoded_byte(&mut v, b);
        assert(bytes@.take(i + 1).drop_last() == bytes@.take(i as int));
        i = i + 1;
    }
    assert(bytes@.take(bytes@.len() as int) == bytes@);
    v
}

/// Whether `pat` occurs in `s` at position `i`.
fn occurs_at_exec(s: &Vec<char>, pat: &Vec<char>, i: usize) -> (b: bool)
    requires
        i <= s.len(),
    ensures
        b == occurs_at(s@, pat@, i as int),
{
    if pat.len() > s.len() - i {
        return false;
    }
    let mut k: usize = 0;
    while k < pat.len()
        invariant
            k <= pat.len(),
            i + pat.len() <= s.len(),
            forall|j: int| 0 <= j < k ==> s@[i + j] == pat@[j],
        decreases pat.len() - k,
    {
        if s[i + k] != pat[k] {
            assert(s@.subrange(i as int, i + pat@.len())[k as int] != pat@[k as int]);
            return false;
        }
        k = k + 1;
    }
    assert(s@.subrange(i as int, i + pat@.len()) =~= pat@);
    true
}

/// `s` with every occurrence of `pat` replaced by `rep` (see [`replace_all`]).
pub fn replace_all_chars(s: &Vec<char>, pat: &Vec<char>, rep: &Vec<char>) -> (out: Vec<char>)
    requires
        pat@.len() > 0,
    ensures
        out@ == replace_all(s@, pat@, rep@),
{
    let mut out: Vec<char> = Vec::new();
    let mut i: usize = 0;
    assert(s@.skip(0) =~= s@);
    assert(out@ + replace_all(s@, pat@, rep@) =~= replace_all(s@, pat@, rep@));
    while i < s.len()
        invariant
            i <= s.len(),
            pat@.len() > 0,
            out@ + replace_all(s@.skip(i as int), pat@, rep@) == replace_all(s@, pat@, rep@),
        decreases s.len() - i,
    {
        let ghost rest = s@.skip(i as int);
        if occurs_at_exec(s, pat, i) {
            assert(rest.subrange(0, pat@.len() as int) =~= s@.subrange(i as int, i + pat@.len()));
            assert(rest.skip(pat@.len() as int) =~= s@.skip(i + pat@.len()));
            append_chars(&mut out, rep);
            i = i + pat.len();
        } else {
            proof {
                if i + pat@.len() <= s@.len() {
                    assert(rest.subrange(0, pat@.len() as int) =~= s@.subrange(
                        i as int,
                        i + pat@.len(),
                    ));
                }
            }
            assert(rest.skip(1) =~= s@.skip(i + 1));
            out.push(s[i]);
            i = i + 1;
        }
    }
    assert(s@.skip(i as int) =~= Seq::<char>::empty());
    out
}

/// Whether `s` starts with a valid scheme followed by `:`.
fn has_valid_scheme_exec(s: &Vec<char>) -> (b: bool)
    ensures
        b == has_valid_scheme(s@),
{
    let mut i: usize = 0;
    while i < s.len() && s[i] != ':'
        invariant
            i <= s.len(),
            forall|j: int| 0 <= j < i ==> #[trigger] s@[j] != ':',
        decreases s.len() - i,
    {
        i = i + 1;
    }
    if i == s.len() {
        assert forall|k: int| !is_first_colon(s@, k) by {}
        return false;
    }
    assert(is_first_colon(s@, i as int));
    assert forall|k: int| is_first_colon(s@, k) implies k == i by {
        if k < i {
        } else if k > i {
            assert(s@[i as int] == ':');
        }
    }
    let ghost sch = s@.take(i as int);
    if i == 0 {
        assert(!is_valid_scheme(sch));
        return false;
    }
    let c0 = s[0];
    if !(('a' <= c0 && c0 <= 'z') || ('A' <= c0 && c0 <= 'Z')) {
        assert(!is_valid_scheme(sch));
        return false;
    }
    let mut k: usize = 0;
    while k < i
        invariant
            k <= i,
            i < s.len(),
            sch == s@.take(i as int),
            forall|j: int| 0 <= j < k ==> is_scheme_char(#[trigger] sch[j]),
            forall|k2: int| is_first_colon(s@, k2) ==> k2 == i,
        decreases i - k,
    {
        let c = s[k];
        if !(('a' <= c && c <= 'z') || ('A' <= c && c <= 'Z') || ('0' <= c && c <= '9') || c == '+'
            || c == '-' || c == '.') {
            assert(!is_scheme_char(sch[k as int]));
            assert(!is_valid_scheme(sch));
            return false;
        }
        k = k + 1;
    }
    assert(is_valid_scheme(sch));
    true
}

/// Substitutes the URL-encoded `param` for every `{param}` token in `url`,
/// then checks that the result starts with a well-formed scheme (RFC 3986).
///
/// Returns the resolved URL, or an error that quotes it when the scheme is
/// missing or malformed.
pub fn resolve_url(url: String, param: Option<String>) -> (r: Result<String, String>)
    ensures
        result_view(r) == resolved_url(url@, opt_view(param)),
{
    let resolved: Vec<char> = match param {
        Some(p) => {
            let encoded = encode_param_chars(p.as_str());
            let pat: Vec<char> = vec!['{', 'p', 'a', 'r', 'a', 'm', '}'];
            assert(pat@ =~= placeholder());
            let url_chars = chars_of(url.as_str());
            replace_all_chars(&url_chars, &pat, &encoded)
        },
        None => chars_of(url.as_str()),
    };
    let resolved_string = string_from_chars(&resolved);
    if has_valid_scheme_exec(&resolved) {
        Ok(resolved_string)
    } else {
        let mut msg = String::new();
        append_str(&mut msg, "Rejected URL with missing or invalid scheme: ");
        append_str(&mut msg, resolved_string.as_str());
        Err(msg)
    }
}

/// Checks that `text` is safe to place on the clipboard or to paste:
/// it must not contain a NUL character.
pub fn validate_text(text: &str) -> (r: Result<(), String>)
    ensures
        r is Ok <==> !text@.contains('\0'),
        r matches Err(e) ==> e@ == nul_text_error(),
{
    let cs = chars_of(text);
    let mut i: usize = 0;
    while i < cs.len()
        invariant
            i <= cs.len(),
            cs@ == text@,
            forall|j: int| 0 <= j < i ==> cs@[j] != '\0',
        decreases cs.len() - i,
    {
        if cs[i] == '\0' {
            assert(text@[i as int] == '\0');
            let mut msg = String::new();
            append_str(&mut msg, "Text must not contain NUL bytes");
            return Err(msg);
        }
        i = i + 1;
    }
    Ok(())
}

/// The error for text that holds a NUL character.
pub open spec fn nul_text_error() -> Seq<char> {
    "Text must not contain NUL bytes"@
}

// ── Laws of URL resolution ───────────────────────────────────────────────────

/// Whether the placeholder occurs anywhere in `s`.
pub open spec fn has_placeholder(s: Seq<char>) -> bool {
    exists|i: int| occurs_at(s, placeholder(), i)
}

proof fn lemma_replace_absent(s: Seq<char>, pat: Seq<char>, rep: Seq<char>)
    requires
        pat.len() > 0,
        forall|i: int| !occurs_at(s, pat, i),
    ensures
        replace_all(s, pat, rep) == s,
    decreases s.len(),
{
    if s.len() > 0 {
        assert(!occurs_at(s, pat, 0));
        assert forall|i: int| !occurs_at(s.skip(1), pat, i) by {
            if occurs_at(s.skip(1), pat, i) {
                assert(s.skip(1).subrange(i, i + pat.len()) =~= s.subrange(i + 1, i + 1 + pat.len()));
                assert(occurs_at(s, pat, i + 1));
            }
        }
        lemma_replace_absent(s.skip(1), pat, rep);
        assert(seq![s[0]] + s.skip(1) =~= s);
    }
}

/// A URL without the `{param}` placeholder resolves the same whatever the
/// parameter: the parameter is ignored.
pub proof fn url_without_placeholder_ignores_param(url: Seq<char>, param: Seq<char>)
    requires
        !has_placeholder(url),
    ensures
        resolved_url(url, Some(param)) == resolved_url(url, None),
{
    lemma_replace_absent(url, placeholder(), encode_param(param));
}

/// A character that may appear in an encoded parameter: ASCII letters and
/// digits, `-` `_` `.` `~`, `+` and `%`.
pub open spec fn is_encoded_char(c: char) -> bool {
    is_ascii_alpha(c) || is_ascii_digit(c) || c == '-' || c == '_' || c == '.' || c == '~' || c == '+'
        || c == '%'
}

proof fn lemma_encode_byte_safe(b: u8)
    ensures
        forall|i: int| 0 <= i < encode_byte(b).len() ==> is_encoded_char(#[trigger] encode_byte(b)[i]),
{
    let e = encode_byte(b);
    if is_unreserved_byte(b) {
        assert(e[0] == b as char);
    } else if b == 0x20 {
    } else {
        assert(b / 16 < 16);
        assert(b % 16 < 16);
    }
}

/// An encoded parameter holds only URL-safe characters, so it cannot break
/// out of the query or path it is substituted into.
pub proof fn encoded_param_is_url_safe(bytes: Seq<u8>)
    ensures
        forall|i: int| 0 <= i < encode_bytes(bytes).len() ==> is_encoded_char(#[trigger] encode_bytes(bytes)[i]),
    decreases bytes.len(),
{
    if bytes.len() > 0 {
        encoded_param_is_url_safe(bytes.drop_last());
        lemma_encode_byte_safe(bytes.last());
        let a = encode_bytes(bytes.drop_last());
        let b = encode_byte(bytes.last());
        assert forall|i: int| 0 <= i < encode_bytes(bytes).len() implies is_encoded_char(#[trigger] encode_bytes(bytes)[i]) by {
            if i < a.len() {
                assert(encode_bytes(bytes)[i] == a[i]);
            } else {
                assert(encode_bytes(bytes)[i] == b[i - a.len()]);
            }
        }
    }
}

/// An upper-case hexadecimal digit.
pub open spec fn is_hex_digit(c: char) -> bool {
    ('0' <= c <= '9') || ('A' <= c <= 'F')
}

/// The value of an upper-case hexadecimal digit.
pub open spec fn hex_value(c: char) -> int {
    if c <= '9' { (c as int) - 48 } else { (c as int) - 55 }
}

/// A character that an unreserved byte is written as.
pub open spec fn is_unreserved_char(c: char) -> bool {
    is_ascii_alpha(c) || is_ascii_digit(c) || c == '-' || c == '_' || c == '.' || c == '~'
}

/// `p` followed by the bytes in `o`, if any.
pub open spec fn prepend_bytes(p: Seq<u8>, o: Option<Seq<u8>>) -> Option<Seq<u8>> {
    match o {
        Some(r) => Some(p + r),
        None => None,
    }
}

/// Reads back the bytes of an encoded parameter: `+` is a space, `%XX` the
/// byte with hexadecimal value `XX`, an unreserved character itself;
/// anything else makes the text unreadable.
pub open spec fn form_decode(cs: Seq<char>) -> Option<Seq<u8>>
    decreases cs.len(),
{
    if cs.len() == 0 {
        Some(Seq::empty())
    } else if cs[0] == '+' {
        prepend_bytes(seq![0x20u8], form_decode(cs.skip(1)))
    } else if cs[0] == '%' && cs.len() >= 3 && is_hex_digit(cs[1]) && is_hex_digit(cs[2]) {
        prepend_bytes(seq![(hex_value(cs[1]) * 16 + hex_value(cs[2])) as u8], form_decode(cs.skip(3)))
    } else if is_unreserved_char(cs[0]) {
        prepend_bytes(seq![cs[0] as u8], form_decode(cs.skip(1)))
    } else {
        None
    }
}

proof fn lemma_decode_unit(b: u8, rest: Seq<char>)
    ensures
        form_decode(encode_byte(b) + rest) == prepend_bytes(seq![b], form_decode(rest)),
{
    let e = encode_byte(b);
    let s = e + rest;
    if is_unreserved_byte(b) {
        assert(s[0] == b as char);
        assert((b as char) as u8 == b);
        assert(s.skip(1) =~= rest);
    } else if b == 0x20 {
        assert(s.skip(1) =~= rest);
    } else {
        let hi = (b / 16) as int;
        let lo = (b % 16) as int;
        assert(s[1] == hex_digit(hi));
        assert(s[2] == hex_digit(lo));
        assert(hex_value(hex_digit(hi)) == hi);
        assert(hex_value(hex_digit(lo)) == lo);
        assert(s.skip(3) =~= rest);
        assert((hi * 16 + lo) as u8 == b);
    }
}

proof fn lemma_decode_encoded(bs: Seq<u8>, rest: Seq<char>)
    ensures
        form_decode(encode_bytes(bs) + rest) == prepend_bytes(bs, form_decode(rest)),
    decreases bs.len(),
{
    if bs.len() == 0 {
        assert(encode_bytes(bs) + rest =~= rest);
        match form_decode(rest) {
            Some(r) => assert(bs + r =~= r),
            None => {},
        }
    } else {
        let d = bs.drop_last();
        let l = bs.last();
        assert(encode_bytes(bs) + rest =~= encode_bytes(d) + (encode_byte(l) + rest));
        lemma_decode_encoded(d, encode_byte(l) + rest);
        lemma_decode_unit(l, rest);
        match form_decode(rest) {
            Some(r) => assert(d + (seq![l] + r) =~= bs + r),
            None => {},
        }
    }
}

/// Percent-encoding loses nothing: the bytes of the parameter are read back
/// exactly from its encoded form.
pub proof fn percent_encoding_round_trips(param: Seq<char>)
    ensures
        form_decode(encode_param(param)) == Some(encode_utf8(param)),
{
    let bs = encode_utf8(param);
    lemma_decode_encoded(bs, Seq::empty());
    assert(encode_bytes(bs) + Seq::<char>::empty() =~= encode_bytes(bs));
    assert(bs + Seq::<u8>::empty() =~= bs);
}

/// The scheme is the text before the FIRST `:`: when `url` has its first
/// `:` at `i`, it is accepted (and given back unchanged) exactly when
/// that text is non-empty, starts with an ASCII letter, and holds only
/// ASCII letters, digits, `+`, `-` and `.`, whatever follows (more colons,
/// a port, a path).
pub proof fn scheme_is_text_before_first_colon(url: Seq<char>, i: int)
    requires
        0 <= i < url.len(),
        url[i] == ':',
        forall|j: int| 0 <= j < i ==> url[j] != ':',
    ensures
        resolved_url(url, None) is Ok <==> {
            &&& i > 0
            &&& ('a' <= url[0] <= 'z' || 'A' <= url[0] <= 'Z')
            &&& forall|j: int|
                0 <= j < i ==> ('a' <= #[trigger] url[j] <= 'z' || 'A' <= url[j] <= 'Z' || '0' <= url[j]
                    <= '9' || url[j] == '+' || url[j] == '-' || url[j] == '.')
        },
        resolved_url(url, None) is Ok ==> resolved_url(url, None) == Ok::<Seq<char>, Seq<char>>(url),
{
    let sch = url.take(i);
    assert(is_first_colon(url, i));
    assert forall|k: int| #[trigger] is_first_colon(url, k) implies k == i by {
        if k < i {
            assert(url[k] != ':');
        } else if k > i {
            assert(url[i] != ':');
        }
    }
    assert forall|j: int| 0 <= j < i implies #[trigger] sch[j] == url[j] by {}
    if has_valid_scheme(url) {
        let k = choose|k: int| is_first_colon(url, k) && is_valid_scheme(#[trigger] url.take(k));
        assert(k == i);
        assert forall|j: int| 0 <= j < i implies ('a' <= #[trigger] url[j] <= 'z' || 'A' <= url[j] <= 'Z'
            || '0' <= url[j] <= '9' || url[j] == '+' || url[j] == '-' || url[j] == '.') by {
            assert(is_scheme_char(sch[j]));
        }
    }
    if i > 0 && ('a' <= url[0] <= 'z' || 'A' <= url[0] <= 'Z') && forall|j: int|
        0 <= j < i ==> ('a' <= #[trigger] url[j] <= 'z' || 'A' <= url[j] <= 'Z' || '0' <= url[j] <= '9'
            || url[j] == '+' || url[j] == '-' || url[j] == '.') {
        assert forall|j: int| 0 <= j < sch.len() implies is_scheme_char(#[trigger] sch[j]) by {
            assert(sch[j] == url[j]);
        }
        assert(is_valid_scheme(sch));
        assert(has_valid_scheme(url));
    }
}

/// A URL without any `:` has no scheme and is refused.
pub proof fn url_without_colon_is_refused(url: Seq<char>)
    requires
        forall|j: int| 0 <= j < url.len() ==> url[j] != ':',
    ensures
        resolved_url(url, None) is Err,
{
    if has_valid_scheme(url) {
        let k = choose|k: int| is_first_colon(url, k) && is_valid_scheme(#[trigger] url.take(k));
        assert(url[k] == ':');
    }
}

} // verus!
