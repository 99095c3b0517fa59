//! Marker icon requests: the marker type, the icon reference a mission
//! reports (a base-game virtual path or a mod icon descriptor), and the
//! normalisation of virtual paths and PBO prefixes into safe, lower-case,
//! backslash-separated paths.
use crate::companion::string_views;
use crate::sorting::{is_stable_order, stable_order};
use crate::text::{
    ascii_alphanumeric, ascii_digit, ascii_hexdigit, ascii_lower, ascii_lower_seq, chars_of,
    clone_string, contains_char, eq_ignore_ascii_case, eq_ignore_case, has_prefix, has_suffix,
    is_ascii_alphanumeric, is_ascii_digit, is_ascii_hexdigit, lit, lower_char, push_char,
    starts_with, str_eq, string_from_chars, string_from_range, to_ascii_lowercase, utf8_len,
};
use vstd::prelude::*;
use vstd::utf8::{encode_scalar, encode_utf8};

verus! {

broadcast use vstd::string::group_string_axioms;

/// Longest accepted marker type, in bytes.
pub const MAX_MARKER_TYPE_BYTES: usize = 128;

/// Longest accepted icon reference or virtual path, in bytes.
pub const MAX_ICON_PATH_BYTES: usize = 512;

/// Longest accepted mod directory name, in bytes.
pub const MAX_MOD_DIRECTORY_BYTES: usize = 128;

/// Longest accepted Steam Workshop item id, in bytes.
pub const MAX_WORKSHOP_ID_BYTES: usize = 20;

/// Longest accepted mod hash, in bytes.
pub const MAX_MOD_HASH_BYTES: usize = 64;

/// Why a marker icon could not be served.
#[derive(Debug, Clone, Copy, PartialEq, Eq, Structural)]
pub enum MarkerIconError {
    Unavailable,
    InvalidRequest,
    Unsupported,
    Cache,
}

/// The message of a marker icon error.
pub open spec fn marker_icon_error_message(error: MarkerIconError) -> Seq<char> {
    match error {
        MarkerIconError::Unavailable => "marker icons are unavailable"@,
        MarkerIconError::InvalidRequest => "invalid marker icon request"@,
        MarkerIconError::Unsupported => "unsupported marker texture"@,
        MarkerIconError::Cache => "marker icon cache is unavailable"@,
    }
}

impl MarkerIconError {
    /// The error's message.
    pub fn describe(&self) -> (r: &'static str)
        ensures
            r@ == marker_icon_error_message(*self),
    {
        match self {
            MarkerIconError::Unavailable => "marker icons are unavailable",
            MarkerIconError::InvalidRequest => "invalid marker icon request",
            MarkerIconError::Unsupported => "unsupported marker texture",
            MarkerIconError::Cache => "marker icon cache is unavailable",
        }
    }

    /// The HTTP status the companion answers with: 503 when the cache is
    /// unusable, 404 otherwise.
    pub fn status_code(&self) -> (r: u16)
        ensures
            r == (if *self == MarkerIconError::Cache {
                503u16
            } else {
                404u16
            }),
    {
        match self {
            MarkerIconError::Cache => 503,
            _ => 404,
        }
    }
}

// ---------------------------------------------------------------------------
// Marker types and mod descriptors
// ---------------------------------------------------------------------------

/// A character allowed in a marker type: ASCII letters, digits and `_`.
pub open spec fn is_marker_type_char(c: char) -> bool {
    is_ascii_alphanumeric(c) || c == '_'
}

/// A marker type: 1 to 128 ASCII letters, digits or underscores. (Such a
/// string is ASCII, so its length in bytes is its length in characters.)
pub open spec fn is_valid_marker_type(s: Seq<char>) -> bool {
    &&& 0 < s.len() <= MAX_MARKER_TYPE_BYTES
    &&& forall|i: int| 0 <= i < s.len() ==> is_marker_type_char(#[trigger] s[i])
}

/// Whether every character of `chars` satisfies the marker-type rule.
fn all_marker_type_chars(chars: &Vec<char>) -> (r: bool)
    ensures
        r == forall|i: int| 0 <= i < chars@.len() ==> is_marker_type_char(#[trigger] chars@[i]),
{
    let mut i: usize = 0;
    while i < chars.len()
        invariant
            i <= chars.len(),
            forall|k: int| 0 <= k < i ==> is_marker_type_char(#[trigger] chars@[k]),
        decreases chars.len() - i,
    {
        let c = chars[i];
        if !(ascii_alphanumeric(c) || c == '_') {
            assert(!is_marker_type_char(chars@[i as int]));
            return false;
        }
        i = i + 1;
    }
    true
}

/// `valid_marker_type`: whether a marker type may name a cached icon.
pub fn valid_marker_type(value: &str) -> (r: bool)
    ensures
        r == is_valid_marker_type(value@),
{
    let chars = chars_of(value);
    chars.len() > 0 && chars.len() <= MAX_MARKER_TYPE_BYTES && all_marker_type_chars(&chars)
}

/// `char::is_control`: the Unicode general category `Cc`.
pub open spec fn is_control(c: char) -> bool {
    (c as u32) <= 0x1f || (0x7f <= (c as u32) && (c as u32) <= 0x9f)
}

/// A character allowed in a mod directory name: no control character and
/// none of `\ / : * ? " < > |`.
pub open spec fn is_mod_directory_char(c: char) -> bool {
    &&& !is_control(c)
    &&& c != '\\' && c != '/' && c != ':' && c != '*' && c != '?'
    &&& c != '"' && c != '<' && c != '>' && c != '|'
}

/// A mod directory name: non-empty, at most 128 bytes, not ending in a
/// space or a dot, made of allowed characters, and neither `.` nor `..`.
pub open spec fn is_valid_mod_directory(s: Seq<char>) -> bool {
    &&& s.len() > 0
    &&& utf8_len(s) <= MAX_MOD_DIRECTORY_BYTES
    &&& s.last() != ' ' && s.last() != '.'
    &&& forall|i: int| 0 <= i < s.len() ==> is_mod_directory_char(#[trigger] s[i])
    &&& s != seq!['.']
    &&& s != seq!['.', '.']
}

fn mod_directory_char(c: char) -> (r: bool)
    ensures
        r == is_mod_directory_char(c),
{
    let code = c as u32;
    let control = code <= 0x1f || (0x7f <= code && code <= 0x9f);
    !control && c != '\\' && c != '/' && c != ':' && c != '*' && c != '?' && c != '"' && c != '<'
        && c != '>' && c != '|'
}

/// `valid_mod_directory`: whether a reported mod directory is a single,
/// safe directory name.
pub fn valid_mod_directory(value: &str) -> (r: bool)
    ensures
        r == is_valid_mod_directory(value@),
{
    let chars = chars_of(value);
    let n = chars.len();
    if n == 0 || value.as_bytes().len() > MAX_MOD_DIRECTORY_BYTES {
        return false;
    }
    if chars[n - 1] == ' ' || chars[n - 1] == '.' {
        return false;
    }
    let mut i: usize = 0;
    while i < n
        invariant
            n == chars.len(),
            chars@ == value@,
            i <= n,
            forall|k: int| 0 <= k < i ==> is_mod_directory_char(#[trigger] chars@[k]),
        decreases n - i,
    {
        if !mod_directory_char(chars[i]) {
            assert(!is_mod_directory_char(value@[i as int]));
            return false;
        }
        i = i + 1;
    }
    // `.` and `..` end in a dot and were refused above.
    assert(value@ != seq!['.']) by {
        if value@ == seq!['.'] {
            assert(value@.last() == '.');
        }
    }
    assert(value@ != seq!['.', '.']) by {
        if value@ == seq!['.', '.'] {
            assert(value@.last() == '.');
        }
    }
    true
}

/// A Steam Workshop item id: 1 to 20 ASCII digits.
pub open spec fn is_valid_workshop_id(s: Seq<char>) -> bool {
    &&& 0 < s.len() <= MAX_WORKSHOP_ID_BYTES
    &&& forall|i: int| 0 <= i < s.len() ==> is_ascii_digit(#[trigger] s[i])
}

/// `valid_workshop_id`.
pub fn valid_workshop_id(value: &str) -> (r: bool)
    ensures
        r == is_valid_workshop_id(value@),
{
    let chars = chars_of(value);
    if chars.len() == 0 || chars.len() > MAX_WORKSHOP_ID_BYTES {
        return false;
    }
    let mut i: usize = 0;
    while i < chars.len()
        invariant
            chars@ == value@,
            i <= chars.len(),
            forall|k: int| 0 <= k < i ==> is_ascii_digit(#[trigger] chars@[k]),
        decreases chars.len() - i,
    {
        if !ascii_digit(chars[i]) {
            assert(!is_ascii_digit(value@[i as int]));
            return false;
        }
        i = i + 1;
    }
    true
}

/// A mod hash: at most 64 ASCII hexadecimal digits (it may be empty).
pub open spec fn is_valid_mod_hash(s: Seq<char>) -> bool {
    &&& s.len() <= MAX_MOD_HASH_BYTES
    &&& forall|i: int| 0 <= i < s.len() ==> is_ascii_hexdigit(#[trigger] s[i])
}

/// `valid_mod_hash`.
pub fn valid_mod_hash(value: &str) -> (r: bool)
    ensures
        r == is_valid_mod_hash(value@),
{
    let chars = chars_of(value);
    if chars.len() > MAX_MOD_HASH_BYTES {
        return false;
    }
    let mut i: usize = 0;
    while i < chars.len()
        invariant
            chars@ == value@,
            i <= chars.len(),
            forall|k: int| 0 <= k < i ==> is_ascii_hexdigit(#[trigger] chars@[k]),
        decreases chars.len() - i,
    {
        if !ascii_hexdigit(chars[i]) {
            assert(!is_ascii_hexdigit(value@[i as int]));
            return false;
        }
        i = i + 1;
    }
    true
}

// ---------------------------------------------------------------------------
// Backslash-separated paths
// ---------------------------------------------------------------------------

/// The pieces of `s` between occurrences of `sep`, as `str::split` yields
/// them: an empty string gives one empty piece, and a separator at either
/// end gives an empty piece there.
pub open spec fn split_on(s: Seq<char>, sep: char) -> Seq<Seq<char>>
    decreases s.len(),
{
    if s.len() == 0 {
        seq![Seq::empty()]
    } else {
        let head = split_on(s.drop_last(), sep);
        if s.last() == sep {
            head.push(Seq::empty())
        } else {
            head.update(head.len() - 1, head.last().push(s.last()))
        }
    }
}

/// Splitting always yields at least one piece.
pub proof fn lemma_split_on_nonempty(s: Seq<char>, sep: char)
    ensures
        split_on(s, sep).len() >= 1,
    decreases s.len(),
{
    if s.len() > 0 {
        lemma_split_on_nonempty(s.drop_last(), sep);
    }
}

/// A path component that is refused: empty, `.` or `..`.
pub open spec fn is_unsafe_component(part: Seq<char>) -> bool {
    part.len() == 0 || part == seq!['.'] || part == seq!['.', '.']
}

/// Every backslash-separated component of `s` is a real name.
pub open spec fn components_safe(s: Seq<char>) -> bool {
    forall|k: int|
        0 <= k < split_on(s, '\\').len() ==> !is_unsafe_component(
            #[trigger] split_on(s, '\\')[k],
        )
}

/// A path separator, as accepted at the ends of a path.
pub open spec fn is_separator(c: char) -> bool {
    c == '\\' || c == '/'
}

/// `s` without its leading separators.
pub open spec fn strip_leading_separators(s: Seq<char>) -> Seq<char>
    decreases s.len(),
{
    if s.len() > 0 && is_separator(s[0]) {
        strip_leading_separators(s.drop_first())
    } else {
        s
    }
}

/// `s` without its trailing separators.
pub open spec fn strip_trailing_separators(s: Seq<char>) -> Seq<char>
    decreases s.len(),
{
    if s.len() > 0 && is_separator(s.last()) {
        strip_trailing_separators(s.drop_last())
    } else {
        s
    }
}

/// `/` turned into `\`, then ASCII letters turned to lower case.
pub open spec fn path_char(c: char) -> char {
    ascii_lower(if c == '/' { '\\' } else { c })
}

/// `s.replace('/', "\\").to_ascii_lowercase()`.
pub open spec fn normalize_path_chars(s: Seq<char>) -> Seq<char> {
    s.map_values(|c: char| path_char(c))
}

/// The characters `.paa`.
pub open spec fn paa_suffix() -> Seq<char> {
    seq!['.', 'p', 'a', 'a']
}

/// The characters `a3`, the root of every base-game virtual path.
pub open spec fn a3_root() -> Seq<char> {
    seq!['a', '3']
}

/// `normalize_virtual_path`: a game virtual path made safe and canonical,
/// or `None`. The path must be non-empty, at most 512 bytes, free of NUL
/// and `:`; its leading separators are dropped, `/` becomes `\` and ASCII
/// letters become lower case; every component must be a real name, the
/// path must end in `.paa`, and with `require_a3` its first component must
/// be `a3`.
pub open spec fn virtual_path_spec(value: Seq<char>, require_a3: bool) -> Option<Seq<char>> {
    if value.len() == 0 || utf8_len(value) > MAX_ICON_PATH_BYTES || value.contains('\0')
        || value.contains(':') {
        None
    } else {
        let normalized = normalize_path_chars(strip_leading_separators(value));
        if (require_a3 && split_on(normalized, '\\')[0] != a3_root()) || !components_safe(
            normalized,
        ) || !has_suffix(normalized, paa_suffix()) {
            None
        } else {
            Some(normalized)
        }
    }
}

/// `normalize_pbo_component`: a PBO prefix made canonical, or `None`.
/// Separators at both ends are dropped, `/` becomes `\` and ASCII letters
/// become lower case; the result must be non-empty, free of `:`, and every
/// component must be a real name.
pub open spec fn pbo_component_spec(value: Seq<char>) -> Option<Seq<char>> {
    let normalized = normalize_path_chars(
        strip_trailing_separators(strip_leading_separators(value)),
    );
    if normalized.len() == 0 || normalized.contains(':') || !components_safe(normalized) {
        None
    } else {
        Some(normalized)
    }
}

proof fn lemma_strip_leading_shape(s: Seq<char>)
    ensures
        strip_leading_separators(s).len() <= s.len(),
        strip_leading_separators(s) == s.skip(s.len() - strip_leading_separators(s).len()),
        strip_leading_separators(s).len() > 0 ==> !is_separator(strip_leading_separators(s)[0]),
    decreases s.len(),
{
    if s.len() > 0 && is_separator(s[0]) {
        lemma_strip_leading_shape(s.drop_first());
        let t = strip_leading_separators(s);
        assert(s.drop_first().skip(s.drop_first().len() - t.len()) =~= s.skip(s.len() - t.len()));
    } else {
        assert(s.skip(0) =~= s);
    }
}

proof fn lemma_strip_trailing_shape(s: Seq<char>)
    ensures
        strip_trailing_separators(s).len() <= s.len(),
        strip_trailing_separators(s) == s.take(strip_trailing_separators(s).len() as int),
        strip_trailing_separators(s).len() > 0 ==> !is_separator(strip_trailing_separators(s).last()),
    decreases s.len(),
{
    if s.len() > 0 && is_separator(s.last()) {
        lemma_strip_trailing_shape(s.drop_last());
        let t = strip_trailing_separators(s);
        assert(s.drop_last().take(t.len() as int) =~= s.take(t.len() as int));
    } else {
        assert(s.take(s.len() as int) =~= s);
    }
}

/// Normalising a character twice changes nothing, and a separator never
/// comes from a character that was not one.
proof fn lemma_path_char(c: char)
    ensures
        path_char(path_char(c)) == path_char(c),
        path_char(c) != '/',
        is_separator(path_char(c)) ==> is_separator(c),
        path_char(c) == '\0' ==> c == '\0',
        path_char(c) == ':' ==> c == ':',
        (c as u32) < 128 ==> (path_char(c) as u32) < 128,
        path_char(c) != c ==> (c as u32) < 128,
{
}

proof fn lemma_path_chars_utf8_len(s: Seq<char>)
    ensures
        utf8_len(normalize_path_chars(s)) == utf8_len(s),
    decreases s.len(),
{
    reveal_with_fuel(encode_utf8, 1);
    if s.len() > 0 {
        let n = normalize_path_chars(s);
        assert(n.drop_first() =~= normalize_path_chars(s.drop_first()));
        lemma_path_chars_utf8_len(s.drop_first());
        lemma_path_char(s[0]);
        assert(encode_scalar(n[0] as u32).len() == encode_scalar(s[0] as u32).len());
    }
}

proof fn lemma_utf8_len_skip(s: Seq<char>, i: int)
    requires
        0 <= i <= s.len(),
    ensures
        utf8_len(s.skip(i)) <= utf8_len(s),
    decreases i,
{
    reveal_with_fuel(encode_utf8, 1);
    if i > 0 {
        assert(s.skip(1) =~= s.drop_first());
        lemma_utf8_len_skip(s.drop_first(), i - 1);
        assert(s.drop_first().skip(i - 1) =~= s.skip(i));
    } else {
        assert(s.skip(0) =~= s);
    }
}

/// `n` is `path_char` applied to `t`, and `t` holds no separator at its
/// start: normalising `n` again, with its leading separators dropped,
/// gives `n`.
proof fn lemma_normalized_is_fixed(t: Seq<char>)
    requires
        t.len() > 0 ==> !is_separator(t[0]),
    ensures
        normalize_path_chars(strip_leading_separators(normalize_path_chars(t))) == normalize_path_chars(t),
{
    let n = normalize_path_chars(t);
    if n.len() > 0 {
        lemma_path_char(t[0]);
    }
    assert(strip_leading_separators(n) == n);
    assert forall|k: int| 0 <= k < n.len() implies #[trigger] normalize_path_chars(n)[k] == n[k] by {
        lemma_path_char(t[k]);
    }
    assert(normalize_path_chars(n) =~= n);
}

/// Law (a normalised virtual path is already normal): normalising a path
/// that `normalize_virtual_path` accepted gives the same path again.
pub proof fn law_virtual_path_normalization_is_idempotent(value: Seq<char>, require_a3: bool)
    ensures
        virtual_path_spec(value, require_a3) matches Some(n) ==> virtual_path_spec(n, require_a3)
            == Some(n),
{
    if let Some(n) = virtual_path_spec(value, require_a3) {
        let t = strip_leading_separators(value);
        lemma_strip_leading_shape(value);
        lemma_normalized_is_fixed(t);
        assert(n == normalize_path_chars(t));
        lemma_path_chars_utf8_len(t);
        lemma_utf8_len_skip(value, value.len() - t.len());
        assert(!n.contains('\0') && !n.contains(':')) by {
            if n.contains('\0') || n.contains(':') {
                let k = choose|k: int| 0 <= k < n.len() && (n[k] == '\0' || n[k] == ':');
                lemma_path_char(t[k]);
                assert(value[value.len() - t.len() + k] == t[k]);
            }
        }
    }
}

/// Law (a normalised PBO prefix is already normal): normalising a
/// component that `normalize_pbo_component` accepted gives it again.
pub proof fn law_pbo_component_normalization_is_idempotent(value: Seq<char>)
    ensures
        pbo_component_spec(value) matches Some(n) ==> pbo_component_spec(n) == Some(n),
{
    if let Some(n) = pbo_component_spec(value) {
        let lead = strip_leading_separators(value);
        let t = strip_trailing_separators(lead);
        lemma_strip_leading_shape(value);
        lemma_strip_trailing_shape(lead);
        assert(n == normalize_path_chars(t));
        assert(t.len() > 0);
        assert(t[0] == lead[0]);
        lemma_normalized_is_fixed(t);
        lemma_path_char(t.last());
        assert(n.last() == path_char(t.last()));
        assert(strip_trailing_separators(n) == n);
        assert(strip_leading_separators(n) == n) by {
            lemma_path_char(t[0]);
        }
    }
}

proof fn lemma_strip_leading_skip(s: Seq<char>, i: int)
    requires
        0 <= i <= s.len(),
        forall|k: int| 0 <= k < i ==> is_separator(#[trigger] s[k]),
    ensures
        strip_leading_separators(s) == strip_leading_separators(s.skip(i)),
    decreases i,
{
    if i > 0 {
        assert(s.skip(1) =~= s.drop_first());
        lemma_strip_leading_skip(s.drop_first(), i - 1);
        assert(s.drop_first().skip(i - 1) =~= s.skip(i));
    } else {
        assert(s.skip(0) =~= s);
    }
}

proof fn lemma_strip_trailing_take(s: Seq<char>, j: int)
    requires
        0 <= j <= s.len(),
        forall|k: int| j <= k < s.len() ==> is_separator(#[trigger] s[k]),
    ensures
        strip_trailing_separators(s) == strip_trailing_separators(s.take(j)),
    decreases s.len() - j,
{
    if j < s.len() {
        lemma_strip_trailing_take(s.drop_last(), j);
        assert(s.drop_last().take(j) =~= s.take(j));
    } else {
        assert(s.take(j) =~= s);
    }
}

/// Index of the first character of `chars` that is not a separator.
fn leading_separator_end(chars: &Vec<char>) -> (r: usize)
    ensures
        r <= chars.len(),
        chars@.skip(r as int) == strip_leading_separators(chars@),
{
    let mut i: usize = 0;
    while i < chars.len() && (chars[i] == '\\' || chars[i] == '/')
        invariant
            i <= chars.len(),
            forall|k: int| 0 <= k < i ==> is_separator(#[trigger] chars@[k]),
        decreases chars.len() - i,
    {
        i = i + 1;
    }
    proof {
        lemma_strip_leading_skip(chars@, i as int);
        let rest = chars@.skip(i as int);
        assert(rest.len() == 0 || !is_separator(rest[0]));
    }
    i
}

/// End of `chars[from..]` once its trailing separators are dropped.
fn trailing_separator_start(chars: &Vec<char>, from: usize) -> (r: usize)
    requires
        from <= chars.len(),
    ensures
        from <= r <= chars.len(),
        chars@.subrange(from as int, r as int) == strip_trailing_separators(
            chars@.skip(from as int),
        ),
{
    let mut j: usize = chars.len();
    while j > from && (chars[j - 1] == '\\' || chars[j - 1] == '/')
        invariant
            from <= j <= chars.len(),
            forall|k: int| j <= k < chars.len() ==> is_separator(#[trigger] chars@[k]),
        decreases j,
    {
        j = j - 1;
    }
    proof {
        let rest = chars@.skip(from as int);
        assert forall|k: int| j - from <= k < rest.len() implies is_separator(#[trigger] rest[k]) by {
            assert(rest[k] == chars@[from + k]);
        }
        lemma_strip_trailing_take(rest, j - from);
        assert(rest.take(j - from) =~= chars@.subrange(from as int, j as int));
        let t = rest.take(j - from);
        assert(t.len() == 0 || !is_separator(t.last()));
    }
    j
}

fn path_char_exec(c: char) -> (r: char)
    ensures
        r == path_char(c),
{
    if c == '/' {
        '\\'
    } else {
        lower_char(c)
    }
}

/// `chars[from..to]` with `/` turned into `\` and ASCII letters lowered.
pub(crate) fn normalized_range(chars: &Vec<char>, from: usize, to: usize) -> (r: Vec<char>)
    requires
        from <= to <= chars.len(),
    ensures
        r@ == normalize_path_chars(chars@.subrange(from as int, to as int)),
{
    let mut out: Vec<char> = Vec::new();
    let mut i = from;
    while i < to
        invariant
            from <= i <= to <= chars.len(),
            out@ =~= normalize_path_chars(chars@.subrange(from as int, i as int)),
        decreases to - i,
    {
        out.push(path_char_exec(chars[i]));
        i = i + 1;
    }
    out
}

fn unsafe_component(part: &Vec<char>) -> (r: bool)
    ensures
        r == is_unsafe_component(part@),
{
    if part.len() == 0 {
        true
    } else if part.len() == 1 {
        let dot = part[0] == '.';
        proof {
            if dot {
                assert(part@ =~= seq!['.']);
            } else {
                assert(part@ != seq!['.']);
            }
        }
        dot
    } else if part.len() == 2 {
        let dots = part[0] == '.' && part[1] == '.';
        proof {
            if dots {
                assert(part@ =~= seq!['.', '.']);
            } else {
                assert(part@ != seq!['.', '.']);
            }
        }
        dots
    } else {
        proof {
            assert(part@ != seq!['.']);
            assert(part@ != seq!['.', '.']);
        }
        false
    }
}

/// One step of [`split_on`]: the pieces of `s` with one more character.
proof fn lemma_split_on_push(s: Seq<char>, c: char, sep: char)
    ensures
        split_on(s.push(c), sep) == (if c == sep {
            split_on(s, sep).push(Seq::empty())
        } else {
            split_on(s, sep).update(
                split_on(s, sep).len() - 1,
                split_on(s, sep).last().push(c),
            )
        }),
{
    assert(s.push(c).drop_last() =~= s);
}

/// Scans the backslash-separated components of `s`: whether all are real
/// names, and the first component.
fn scan_components(s: &Vec<char>) -> (r: (bool, Vec<char>))
    ensures
        r.0 == components_safe(s@),
        r.1@ == split_on(s@, '\\')[0],
{
    let mut current: Vec<char> = Vec::new();
    let mut first: Vec<char> = Vec::new();
    let mut seen_separator = false;
    let mut safe = true;
    let mut i: usize = 0;
    proof {
        assert(s@.take(0) =~= Seq::<char>::empty());
    }
    while i < s.len()
        invariant
            i <= s.len(),
            split_on(s@.take(i as int), '\\').len() >= 1,
            current@ == split_on(s@.take(i as int), '\\').last(),
            first@ == split_on(s@.take(i as int), '\\')[0],
            seen_separator <==> split_on(s@.take(i as int), '\\').len() > 1,
            safe <==> forall|k: int|
                0 <= k < split_on(s@.take(i as int), '\\').len() - 1 ==> !is_unsafe_component(
                    #[trigger] split_on(s@.take(i as int), '\\')[k],
                ),
        decreases s.len() - i,
    {
        let c = s[i];
        let ghost before = split_on(s@.take(i as int), '\\');
        proof {
            assert(s@.take(i + 1) =~= s@.take(i as int).push(c));
            lemma_split_on_push(s@.take(i as int), c, '\\');
        }
        if c == '\\' {
            if unsafe_component(&current) {
                safe = false;
            }
            current = Vec::new();
            seen_separator = true;
            proof {
                let after = split_on(s@.take(i + 1), '\\');
                assert(after == before.push(Seq::empty()));
                assert(current@ =~= after.last());
                assert(after[0] == before[0]);
                if safe {
                    assert forall|k: int| 0 <= k < after.len() - 1 implies !is_unsafe_component(
                        #[trigger] after[k],
                    ) by {
                        if k < before.len() - 1 {
                            assert(after[k] == before[k]);
                        } else {
                            assert(after[k] == before.last());
                        }
                    }
                } else {
                    if !is_unsafe_component(before.last()) {
                        let k = choose|k: int|
                            0 <= k < before.len() - 1 && is_unsafe_component(
                                #[trigger] before[k],
                            );
                        assert(after[k] == before[k]);
                    } else {
                        assert(after[before.len() - 1] == before.last());
                    }
                }
            }
        } else {
            current.push(c);
            if !seen_separator {
                first.push(c);
            }
            proof {
                let after = split_on(s@.take(i + 1), '\\');
                assert(after == before.update(before.len() - 1, before.last().push(c)));
                assert(current@ =~= after.last());
                if before.len() == 1 {
                    assert(first@ =~= after[0]);
                } else {
                    assert(after[0] == before[0]);
                }
                assert forall|k: int| 0 <= k < after.len() - 1 implies after[k] == before[k] by {}
                if !safe {
                    let k = choose|k: int|
                        0 <= k < before.len() - 1 && is_unsafe_component(#[trigger] before[k]);
                    assert(after[k] == before[k]);
                }
            }
        }
        i = i + 1;
    }
    let last_unsafe = unsafe_component(&current);
    proof {
        assert(s@.take(s@.len() as int) =~= s@);
        let parts = split_on(s@, '\\');
        if safe && !last_unsafe {
            assert forall|k: int| 0 <= k < parts.len() implies !is_unsafe_component(
                #[trigger] parts[k],
            ) by {
                if k == parts.len() - 1 {
                    assert(parts[k] == parts.last());
                }
            }
        } else if !safe {
            let k = choose|k: int| 0 <= k < parts.len() - 1 && is_unsafe_component(#[trigger] parts[k]);
            assert(!components_safe(s@));
        } else {
            assert(is_unsafe_component(parts[parts.len() - 1]));
        }
    }
    (safe && !last_unsafe, first)
}

/// Whether `chars` ends in `.paa`.
fn ends_with_paa(chars: &Vec<char>) -> (r: bool)
    ensures
        r == has_suffix(chars@, paa_suffix()),
{
    let n = chars.len();
    if n < 4 {
        return false;
    }
    let r = chars[n - 4] == '.' && chars[n - 3] == 'p' && chars[n - 2] == 'a' && chars[n - 1]
        == 'a';
    proof {
        let tail = chars@.skip(n - 4);
        if r {
            assert(tail =~= paa_suffix());
        } else {
            assert(tail[0] != '.' || tail[1] != 'p' || tail[2] != 'a' || tail[3] != 'a');
            assert(tail != paa_suffix());
        }
    }
    r
}

/// Whether `chars` is `a3`.
fn is_a3(chars: &Vec<char>) -> (r: bool)
    ensures
        r == (chars@ == a3_root()),
{
    let r = chars.len() == 2 && chars[0] == 'a' && chars[1] == '3';
    proof {
        if r {
            assert(chars@ =~= a3_root());
        } else if chars@.len() == 2 {
            assert(chars@[0] != 'a' || chars@[1] != '3');
        }
    }
    r
}

/// `normalize_virtual_path`: see [`virtual_path_spec`].
pub fn normalize_virtual_path(value: &str, require_a3: bool) -> (r: Option<String>)
    ensures
        r matches Some(s) ==> virtual_path_spec(value@, require_a3) == Some(s@),
        r is None ==> virtual_path_spec(value@, require_a3) is None,
{
    if value.is_empty() || value.as_bytes().len() > MAX_ICON_PATH_BYTES || contains_char(
        value,
        '\0',
    ) || contains_char(value, ':') {
        return None;
    }
    let chars = chars_of(value);
    let from = leading_separator_end(&chars);
    let normalized = normalized_range(&chars, from, chars.len());
    proof {
        assert(chars@.subrange(from as int, chars@.len() as int) =~= chars@.skip(from as int));
    }
    let (safe, first) = scan_components(&normalized);
    if (require_a3 && !is_a3(&first)) || !safe || !ends_with_paa(&normalized) {
        return None;
    }
    Some(string_from_chars(&normalized))
}

/// `normalize_pbo_component`: see [`pbo_component_spec`].
pub fn normalize_pbo_component(value: &str) -> (r: Option<String>)
    ensures
        r matches Some(s) ==> pbo_component_spec(value@) == Some(s@),
        r is None ==> pbo_component_spec(value@) is None,
{
    let chars = chars_of(value);
    let from = leading_separator_end(&chars);
    let to = trailing_separator_start(&chars, from);
    let normalized = normalized_range(&chars, from, to);
    if normalized.len() == 0 {
        return None;
    }
    let mut i: usize = 0;
    while i < normalized.len()
        invariant
            i <= normalized.len(),
            normalized@ == normalize_path_chars(
                strip_trailing_separators(strip_leading_separators(value@)),
            ),
            forall|k: int| 0 <= k < i ==> normalized@[k] != ':',
        decreases normalized.len() - i,
    {
        if normalized[i] == ':' {
            assert(normalized@.contains(':'));
            return None;
        }
        i = i + 1;
    }
    let (safe, _first) = scan_components(&normalized);
    if !safe {
        return None;
    }
    Some(string_from_chars(&normalized))
}

// ---------------------------------------------------------------------------
// Icon references
// ---------------------------------------------------------------------------

/// What `serde_json::from_str::<Vec<String>>` returns when it succeeds: the
/// strings of the JSON array of strings that `text` is.
pub uninterp spec fn json_string_array(text: Seq<char>) -> Option<Seq<Seq<char>>>;

/// `serde_json::from_str::<Vec<String>>`: `text` read as a JSON array of
/// strings, or `None` when it is not one. The result is
/// [`json_string_array`] of `text`.
#[verifier::external_body]
fn parse_json_string_array(text: &str) -> (r: Option<Vec<String>>)
    ensures
        match r {
            Some(strings) => json_string_array(text@) == Some(string_views(strings@)),
            None => json_string_array(text@) is None,
        },
{
    serde_json::from_str::<Vec<String>>(text).ok()
}

/// The first element of a mod icon descriptor.
pub open spec fn mod_icon_descriptor_tag() -> Seq<char> {
    "ctab_mod_icon_v1"@
}

/// A marker icon in a mod: the mod's directory, Workshop id and hash, and
/// the icon's virtual path.
#[derive(Debug, Clone, PartialEq, Eq)]
pub struct ModIconReference {
    pub mod_directory: String,
    pub workshop_id: String,
    pub mod_hash: String,
    pub virtual_path: String,
}

/// Where a marker icon comes from.
#[derive(Debug, Clone, PartialEq, Eq)]
pub enum IconReference {
    /// A virtual path in the base game.
    BaseGame(String),
    /// An icon in a mod.
    Mod(ModIconReference),
}

/// A mod icon reference as characters: directory, Workshop id, hash,
/// virtual path.
pub open spec fn mod_reference_view(r: ModIconReference) -> (Seq<char>, Seq<char>, Seq<char>, Seq<char>) {
    (r.mod_directory@, r.workshop_id@, r.mod_hash@, r.virtual_path@)
}

/// An icon reference as characters.
pub enum IconReferenceView {
    BaseGame(Seq<char>),
    Mod((Seq<char>, Seq<char>, Seq<char>, Seq<char>)),
}

/// The view of an icon reference.
pub open spec fn icon_reference_view(r: IconReference) -> IconReferenceView {
    match r {
        IconReference::BaseGame(path) => IconReferenceView::BaseGame(path@),
        IconReference::Mod(m) => IconReferenceView::Mod(mod_reference_view(m)),
    }
}

/// The mod icon a descriptor names: five strings, the tag
/// `ctab_mod_icon_v1`, a valid mod directory, Workshop id and mod hash, and
/// a virtual path, which is normalised (it need not start at `a3`).
pub open spec fn descriptor_reference(descriptor: Seq<Seq<char>>) -> Option<
    (Seq<char>, Seq<char>, Seq<char>, Seq<char>),
> {
    if descriptor.len() != 5 || descriptor[0] != mod_icon_descriptor_tag() {
        None
    } else {
        match virtual_path_spec(descriptor[4], false) {
            None => None,
            Some(virtual_path) => if !is_valid_mod_directory(descriptor[1]) || !is_valid_workshop_id(
                descriptor[2],
            ) || !is_valid_mod_hash(descriptor[3]) {
                None
            } else {
                Some((descriptor[1], descriptor[2], descriptor[3], virtual_path))
            },
        }
    }
}

/// `parse_icon_reference`, after the JSON is read: the mod icon that a
/// descriptor names (see [`descriptor_reference`]).
pub fn mod_reference_from_descriptor(descriptor: &Vec<String>) -> (r: Option<ModIconReference>)
    ensures
        match r {
            Some(reference) => descriptor_reference(string_views(descriptor@)) == Some(
                mod_reference_view(reference),
            ),
            None => descriptor_reference(string_views(descriptor@)) is None,
        },
{
    let ghost d = string_views(descriptor@);
    if descriptor.len() != 5 || !str_eq(descriptor[0].as_str(), "ctab_mod_icon_v1") {
        proof {
            if descriptor@.len() == 5 {
                assert(d[0] == descriptor@[0]@);
            }
        }
        return None;
    }
    assert(d[0] == descriptor@[0]@ && d[1] == descriptor@[1]@ && d[2] == descriptor@[2]@ && d[3]
        == descriptor@[3]@ && d[4] == descriptor@[4]@);
    let virtual_path = match normalize_virtual_path(descriptor[4].as_str(), false) {
        Some(path) => path,
        None => return None,
    };
    if !valid_mod_directory(descriptor[1].as_str()) || !valid_workshop_id(descriptor[2].as_str())
        || !valid_mod_hash(descriptor[3].as_str()) {
        return None;
    }
    Some(
        ModIconReference {
            mod_directory: clone_string(&descriptor[1]),
            workshop_id: clone_string(&descriptor[2]),
            mod_hash: clone_string(&descriptor[3]),
            virtual_path,
        },
    )
}

/// `parse_icon_reference`: an icon path reported by a mission. It must be
/// non-empty, at most 512 bytes, free of NUL and `:`. One that starts with
/// `[` is a JSON mod icon descriptor (see [`descriptor_reference`]);
/// anything else is a base-game virtual path under `a3`.
pub open spec fn icon_reference_spec(value: Seq<char>) -> Option<IconReferenceView> {
    if value.len() == 0 || utf8_len(value) > MAX_ICON_PATH_BYTES || value.contains('\0')
        || value.contains(':') {
        None
    } else if value[0] == '[' {
        match json_string_array(value) {
            None => None,
            Some(descriptor) => match descriptor_reference(descriptor) {
                Some(reference) => Some(IconReferenceView::Mod(reference)),
                None => None,
            },
        }
    } else {
        match virtual_path_spec(value, true) {
            Some(path) => Some(IconReferenceView::BaseGame(path)),
            None => None,
        }
    }
}

/// `parse_icon_reference`: see [`icon_reference_spec`].
pub fn parse_icon_reference(value: &str) -> (r: Option<IconReference>)
    ensures
        match r {
            Some(reference) => icon_reference_spec(value@) == Some(icon_reference_view(reference)),
            None => icon_reference_spec(value@) is None,
        },
{
    if value.is_empty() || value.as_bytes().len() > MAX_ICON_PATH_BYTES || contains_char(
        value,
        '\0',
    ) || contains_char(value, ':') {
        return None;
    }
    let chars = chars_of(value);
    if chars[0] == '[' {
        let descriptor = match parse_json_string_array(value) {
            Some(descriptor) => descriptor,
            None => return None,
        };
        return match mod_reference_from_descriptor(&descriptor) {
            Some(reference) => Some(IconReference::Mod(reference)),
            None => None,
        };
    }
    match normalize_virtual_path(value, true) {
        Some(path) => Some(IconReference::BaseGame(path)),
        None => None,
    }
}

/// `mod_index`, for the key of its cache: the lower-cased mod directory,
/// the Workshop id and the lower-cased hash, separated by `:`.
pub fn mod_index_key(reference: &ModIconReference) -> (r: String)
    ensures
        r@ == ascii_lower_seq(reference.mod_directory@) + seq![':'] + reference.workshop_id@
            + seq![':'] + ascii_lower_seq(reference.mod_hash@),
{
    let mut key = to_ascii_lowercase(reference.mod_directory.as_str());
    push_char(&mut key, ':');
    key.append(reference.workshop_id.as_str());
    push_char(&mut key, ':');
    let hash = to_ascii_lowercase(reference.mod_hash.as_str());
    key.append(hash.as_str());
    key
}

/// Most mod archive indices kept at once.
pub const MAX_MOD_INDICES: usize = 128;

/// What [`ModIndexTable::find`] found for a key.
pub enum IndexLookup<'a, V> {
    /// The index built before for this key.
    Cached(&'a V),
    /// No index for this key, and the table is full.
    Full,
    /// No index for this key, and the table has room.
    Missing,
}

/// The archive indices built so far for mods, by [`mod_index_key`]: at most
/// [`MAX_MOD_INDICES`], each key once. Once full, no further mod is indexed.
pub struct ModIndexTable<V> {
    entries: Vec<(String, V)>,
}

impl<V> View for ModIndexTable<V> {
    type V = Seq<(String, V)>;

    closed spec fn view(&self) -> Seq<(String, V)> {
        self.entries@
    }
}

impl<V> ModIndexTable<V> {
    /// No key occurs twice and the table is within its bound.
    #[verifier::type_invariant]
    spec fn wf(self) -> bool {
        &&& self@.len() <= MAX_MOD_INDICES
        &&& forall|i: int, j: int|
            0 <= i < j < self@.len() ==> #[trigger] self@[i].0@ != #[trigger] self@[j].0@
    }

    /// The value stored under `key`, if any.
    pub open spec fn stored(&self, key: Seq<char>) -> Option<V> {
        if exists|i: int| 0 <= i < self@.len() && #[trigger] self@[i].0@ == key {
            Some(self@[choose|i: int| 0 <= i < self@.len() && #[trigger] self@[i].0@ == key].1)
        } else {
            None
        }
    }

    /// An empty table.
    pub fn new() -> (r: ModIndexTable<V>)
        ensures
            r@.len() == 0,
    {
        ModIndexTable { entries: Vec::new() }
    }

    /// The value stored under `key`.
    pub fn lookup(&self, key: &str) -> (r: Option<&V>)
        ensures
            match r {
                Some(v) => self.stored(key@) == Some(*v),
                None => self.stored(key@) is None,
            },
    {
        proof {
            use_type_invariant(self);
        }
        let mut i: usize = 0;
        while i < self.entries.len()
            invariant
                self.wf(),
                i <= self@.len(),
                forall|k: int| 0 <= k < i ==> #[trigger] self@[k].0@ != key@,
            decreases self@.len() - i,
        {
            if str_eq(self.entries[i].0.as_str(), key) {
                proof {
                    let c = choose|c: int| 0 <= c < self@.len() && #[trigger] self@[c].0@ == key@;
                    if c != i as int {
                        if c < i {
                            assert(self@[c].0@ != key@);
                        } else {
                            assert(self@[i as int].0@ != self@[c].0@);
                        }
                    }
                }
                return Some(&self.entries[i].1);
            }
            i = i + 1;
        }
        None
    }

    /// Whether the table holds [`MAX_MOD_INDICES`] entries.
    pub fn is_full(&self) -> (r: bool)
        ensures
            r == (self@.len() >= MAX_MOD_INDICES),
    {
        self.entries.len() >= MAX_MOD_INDICES
    }

    /// `mod_index`'s decision on a key: the index built before, or, when
    /// there is none, whether the table is full (the mod cannot be indexed)
    /// or has room for one more.
    pub fn find(&self, key: &str) -> (r: IndexLookup<'_, V>)
        ensures
            match self.stored(key@) {
                Some(v) => (r matches IndexLookup::Cached(x) && *x == v),
                None => if self@.len() >= MAX_MOD_INDICES {
                    r is Full
                } else {
                    r is Missing
                },
            },
    {
        match self.lookup(key) {
            Some(v) => IndexLookup::Cached(v),
            None => if self.is_full() {
                IndexLookup::Full
            } else {
                IndexLookup::Missing
            },
        }
    }

    /// Stores `value` under `key` when the table has room and does not hold
    /// the key yet; otherwise leaves the table as it is. Returns whether it
    /// stored the value.
    pub fn store_new(&mut self, key: String, value: V) -> (r: bool)
        ensures
            r == (old(self).stored(key@) is None && old(self)@.len() < MAX_MOD_INDICES),
            r ==> final(self)@ == old(self)@.push((key, value)),
            !r ==> final(self)@ == old(self)@,
    {
        if self.is_full() {
            return false;
        }
        if self.lookup(key.as_str()).is_some() {
            return false;
        }
        self.insert(key, value);
        true
    }

    /// Stores `value` under a key that the table does not hold yet.
    pub fn insert(&mut self, key: String, value: V)
        requires
            old(self)@.len() < MAX_MOD_INDICES,
            old(self).stored(key@) is None,
        ensures
            final(self)@ == old(self)@.push((key, value)),
    {
        proof {
            use_type_invariant(&*self);
        }
        let ghost k = key@;
        proof {
            assert forall|i: int| 0 <= i < self@.len() implies #[trigger] self@[i].0@ != k by {
                if self@[i].0@ == k {
                    assert(exists|j: int| 0 <= j < self@.len() && #[trigger] self@[j].0@ == k);
                }
            }
        }
        let mut entries: Vec<(String, V)> = Vec::new();
        std::mem::swap(&mut entries, &mut self.entries);
        entries.push((key, value));
        self.entries = entries;
    }
}

// ---------------------------------------------------------------------------
// Archive lookup
// ---------------------------------------------------------------------------

/// The entry path of `virtual_path` in an archive with prefix `prefix`:
/// what follows the prefix and a `\`.
pub open spec fn relative_entry_spec(virtual_path: Seq<char>, prefix: Seq<char>) -> Option<Seq<char>> {
    if has_prefix(virtual_path, prefix) && virtual_path.len() > prefix.len() && virtual_path[prefix.len() as int]
        == '\\' {
        Some(virtual_path.skip(prefix.len() + 1 as int))
    } else {
        None
    }
}

/// `extract_virtual_file`, for one archive: the entry path of
/// `virtual_path` below the archive's prefix.
pub fn relative_entry_path(virtual_path: &str, prefix: &str) -> (r: Option<String>)
    ensures
        match r {
            Some(path) => relative_entry_spec(virtual_path@, prefix@) == Some(path@),
            None => relative_entry_spec(virtual_path@, prefix@) is None,
        },
{
    if !starts_with(virtual_path, prefix) {
        return None;
    }
    let chars = chars_of(virtual_path);
    let p = chars_of(prefix).len();
    if chars.len() <= p || chars[p] != '\\' {
        return None;
    }
    let rest = string_from_range(&chars, p + 1, chars.len());
    assert(chars@.subrange(p + 1, chars@.len() as int) =~= chars@.skip(p + 1));
    Some(rest)
}

/// `extract_virtual_file`, up to the reading of archives: the archives to
/// try, in index order, each with the entry path to look for; an archive
/// whose prefix does not lead to `virtual_path` is skipped.
pub fn virtual_file_candidates(prefixes: &Vec<String>, virtual_path: &str) -> (r: Vec<(usize, String)>)
    ensures
        forall|k: int|
            0 <= k < r@.len() ==> #[trigger] r@[k].0 < prefixes@.len() && relative_entry_spec(
                virtual_path@,
                prefixes@[r@[k].0 as int]@,
            ) == Some(r@[k].1@),
        forall|a: int, b: int| 0 <= a < b < r@.len() ==> #[trigger] r@[a].0 < #[trigger] r@[b].0,
        forall|i: int|
            0 <= i < prefixes@.len() && (#[trigger] relative_entry_spec(
                virtual_path@,
                prefixes@[i]@,
            )) is Some ==> exists|k: int| 0 <= k < r@.len() && r@[k].0 == i,
{
    let mut out: Vec<(usize, String)> = Vec::new();
    let mut i: usize = 0;
    while i < prefixes.len()
        invariant
            i <= prefixes@.len(),
            forall|k: int|
                0 <= k < out@.len() ==> #[trigger] out@[k].0 < i && relative_entry_spec(
                    virtual_path@,
                    prefixes@[out@[k].0 as int]@,
                ) == Some(out@[k].1@),
            forall|a: int, b: int| 0 <= a < b < out@.len() ==> #[trigger] out@[a].0 < #[trigger] out@[b].0,
            forall|j: int|
                0 <= j < i && (#[trigger] relative_entry_spec(virtual_path@, prefixes@[j]@)) is Some
                    ==> exists|k: int| 0 <= k < out@.len() && out@[k].0 == j,
        decreases prefixes@.len() - i,
    {
        match relative_entry_path(virtual_path, prefixes[i].as_str()) {
            Some(relative) => {
                let ghost before = out@;
                out.push((i, relative));
                proof {
                    assert(out@[before.len() as int].0 == i);
                    assert forall|j: int|
                        0 <= j < i + 1 && (#[trigger] relative_entry_spec(
                            virtual_path@,
                            prefixes@[j]@,
                        )) is Some implies exists|k: int| 0 <= k < out@.len() && out@[k].0 == j by {
                        if j < i {
                            let k = choose|k: int| 0 <= k < before.len() && before[k].0 == j;
                            assert(out@[k] == before[k]);
                        } else {
                            assert(out@[before.len() as int].0 == j);
                        }
                    }
                }
            },
            None => {},
        }
        i = i + 1;
    }
    out
}

/// `build_pbo_index_from_directories`, for the order of the index: the
/// archives with the longest prefixes first, archives with prefixes of
/// equal length in the order they were found. `prefix_lengths[i]` is the
/// length in bytes of archive `i`'s prefix.
pub fn pbo_index_order(prefix_lengths: &Vec<usize>) -> (r: Vec<usize>)
    ensures
        is_stable_order(prefix_lengths@.map_values(|n: usize| (-(n as int)) as i128), r@),
{
    let mut keys: Vec<i128> = Vec::new();
    let mut i: usize = 0;
    while i < prefix_lengths.len()
        invariant
            i <= prefix_lengths@.len(),
            keys@ == prefix_lengths@.take(i as int).map_values(|n: usize| (-(n as int)) as i128),
        decreases prefix_lengths@.len() - i,
    {
        keys.push(0i128 - (prefix_lengths[i] as i128));
        proof {
            assert(keys@ =~= prefix_lengths@.take(i + 1).map_values(|n: usize| (-(n as int)) as i128));
        }
        i = i + 1;
    }
    assert(prefix_lengths@.take(prefix_lengths@.len() as int) =~= prefix_lengths@);
    stable_order(&keys)
}

/// `build_pbo_index_from_directories`, for one file: whether its extension
/// is `pbo` up to ASCII case.
pub fn is_pbo_extension(extension: Option<&str>) -> (r: bool)
    ensures
        r == match extension {
            Some(e) => eq_ignore_ascii_case(e@, "pbo"@),
            None => false,
        },
{
    match extension {
        Some(e) => eq_ignore_case(e, "pbo"),
        None => false,
    }
}

// ---------------------------------------------------------------------------
// Game and mod directories
// ---------------------------------------------------------------------------

/// `validate_arma_root`, given what the caller found on disk: an absolute
/// directory that holds `arma3_x64.exe` and an `Addons` directory is taken
/// by its canonical path, if that could be found.
pub fn validate_arma_root(
    is_absolute: bool,
    has_executable: bool,
    has_addons: bool,
    canonical: Option<String>,
) -> (r: Option<String>)
    ensures
        r == (if is_absolute && has_executable && has_addons {
            canonical
        } else {
            None
        }),
{
    if !is_absolute || !has_executable || !has_addons {
        return None;
    }
    canonical
}

/// The directory a mod directory candidate starts from.
#[derive(Debug, Clone, Copy, PartialEq, Eq, Structural)]
pub enum PathBase {
    /// The Steam library's `steamapps` directory, two levels above the game.
    Steamapps,
    /// The game directory.
    ArmaRoot,
}

/// A candidate directory as characters: its base and the components below.
pub open spec fn candidate_view(c: (PathBase, Vec<String>)) -> (PathBase, Seq<Seq<char>>) {
    (c.0, string_views(c.1@))
}

/// The directories that may hold a mod's archives, in the order they are
/// tried: its Workshop download (unless the id is `0` or the game has no
/// `steamapps` directory two levels up), then the mod directory in the
/// game directory, then in its `!Workshop` directory; each with `Addons`
/// and with `addons`.
pub open spec fn mod_addon_candidates_spec(
    mod_directory: Seq<char>,
    workshop_id: Seq<char>,
    has_steamapps: bool,
) -> Seq<(PathBase, Seq<Seq<char>>)> {
    let workshop = if workshop_id != "0"@ && has_steamapps {
        seq![
            (PathBase::Steamapps, seq!["workshop"@, "content"@, "107410"@, workshop_id, "Addons"@]),
            (PathBase::Steamapps, seq!["workshop"@, "content"@, "107410"@, workshop_id, "addons"@]),
        ]
    } else {
        Seq::empty()
    };
    workshop + seq![
        (PathBase::ArmaRoot, seq![mod_directory, "Addons"@]),
        (PathBase::ArmaRoot, seq![mod_directory, "addons"@]),
        (PathBase::ArmaRoot, seq!["!Workshop"@, mod_directory, "Addons"@]),
        (PathBase::ArmaRoot, seq!["!Workshop"@, mod_directory, "addons"@]),
    ]
}

/// `mod_addon_directories`, up to the lookups on disk: the candidate
/// directories, in order (see [`mod_addon_candidates_spec`]).
pub fn mod_addon_candidates(reference: &ModIconReference, has_steamapps: bool) -> (r: Vec<
    (PathBase, Vec<String>),
>)
    ensures
        r@.map_values(|c: (PathBase, Vec<String>)| candidate_view(c)) == mod_addon_candidates_spec(
            reference.mod_directory@,
            reference.workshop_id@,
            has_steamapps,
        ),
{
    let mut out: Vec<(PathBase, Vec<String>)> = Vec::new();
    let directory = reference.mod_directory.as_str();
    let id = reference.workshop_id.as_str();
    if !str_eq(id, "0") && has_steamapps {
        let mut downloads: usize = 0;
        while downloads < 2
            invariant
                0 <= downloads <= 2,
                out@.len() == downloads,
                forall|k: int|
                    0 <= k < downloads ==> candidate_view(#[trigger] out@[k]) == (
                        PathBase::Steamapps,
                        seq![
                            "workshop"@,
                            "content"@,
                            "107410"@,
                            id@,
                            if k == 0 {
                                "Addons"@
                            } else {
                                "addons"@
                            },
                        ],
                    ),
            decreases 2 - downloads,
        {
            let mut components: Vec<String> = Vec::new();
            components.push(lit("workshop"));
            components.push(lit("content"));
            components.push(lit("107410"));
            components.push(lit(id));
            components.push(
                if downloads == 0 {
                    lit("Addons")
                } else {
                    lit("addons")
                },
            );
            proof {
                assert(string_views(components@) =~= seq![
                    "workshop"@,
                    "content"@,
                    "107410"@,
                    id@,
                    if downloads == 0 {
                        "Addons"@
                    } else {
                        "addons"@
                    },
                ]);
            }
            out.push((PathBase::Steamapps, components));
            downloads = downloads + 1;
        }
    }
    let ghost workshop_len = out@.len();
    let mut local: usize = 0;
    while local < 4
        invariant
            0 <= local <= 4,
            out@.len() == workshop_len + local,
            forall|k: int|
                0 <= k < workshop_len ==> candidate_view(#[trigger] out@[k]) == (
                    PathBase::Steamapps,
                    seq![
                        "workshop"@,
                        "content"@,
                        "107410"@,
                        id@,
                        if k == 0 {
                            "Addons"@
                        } else {
                            "addons"@
                        },
                    ],
                ),
            forall|k: int|
                workshop_len <= k < workshop_len + local ==> candidate_view(#[trigger] out@[k]) == (
                    PathBase::ArmaRoot,
                    (if k - workshop_len < 2 {
                        seq![directory@]
                    } else {
                        seq!["!Workshop"@, directory@]
                    }) + seq![
                        if (k - workshop_len) % 2 == 0 {
                            "Addons"@
                        } else {
                            "addons"@
                        },
                    ],
                ),
        decreases 4 - local,
    {
        let mut components: Vec<String> = Vec::new();
        if local >= 2 {
            components.push(lit("!Workshop"));
        }
        components.push(lit(directory));
        components.push(
            if local % 2 == 0 {
                lit("Addons")
            } else {
                lit("addons")
            },
        );
        proof {
            assert(string_views(components@) =~= (if local < 2 {
                seq![directory@]
            } else {
                seq!["!Workshop"@, directory@]
            }) + seq![
                if local % 2 == 0 {
                    "Addons"@
                } else {
                    "addons"@
                },
            ]);
        }
        out.push((PathBase::ArmaRoot, components));
        local = local + 1;
    }
    proof {
        let spec = mod_addon_candidates_spec(
            reference.mod_directory@,
            reference.workshop_id@,
            has_steamapps,
        );
        let view = out@.map_values(|c: (PathBase, Vec<String>)| candidate_view(c));
        assert(view.len() == spec.len());
        assert forall|k: int| 0 <= k < view.len() implies view[k] == spec[k] by {
            assert(view[k] == candidate_view(out@[k]));
            if k >= workshop_len {
                let j = k - workshop_len;
                if j < 2 {
                    assert(seq![directory@] + seq![
                        if j % 2 == 0 {
                            "Addons"@
                        } else {
                            "addons"@
                        },
                    ] =~= seq![
                        directory@,
                        if j % 2 == 0 {
                            "Addons"@
                        } else {
                            "addons"@
                        },
                    ]);
                } else {
                    assert(seq!["!Workshop"@, directory@] + seq![
                        if j % 2 == 0 {
                            "Addons"@
                        } else {
                            "addons"@
                        },
                    ] =~= seq![
                        "!Workshop"@,
                        directory@,
                        if j % 2 == 0 {
                            "Addons"@
                        } else {
                            "addons"@
                        },
                    ]);
                }
            }
        }
        assert(view =~= spec);
    }
    out
}

/// The directories found, each once, in the order first found: the
/// candidates that exist (`Some` of their canonical path), without repeats.
pub open spec fn first_occurrences(found: Seq<Option<Seq<char>>>) -> Seq<Seq<char>>
    decreases found.len(),
{
    if found.len() == 0 {
        Seq::empty()
    } else {
        let earlier = first_occurrences(found.drop_last());
        match found.last() {
            Some(path) => if earlier.contains(path) {
                earlier
            } else {
                earlier.push(path)
            },
            None => earlier,
        }
    }
}

/// The characters of optional strings.
pub open spec fn optional_views(found: Seq<Option<String>>) -> Seq<Option<Seq<char>>> {
    found.map_values(
        |o: Option<String>|
            match o {
                Some(s) => Some(s@),
                None => None,
            },
    )
}

/// `mod_addon_directories`, after the lookups on disk: the canonical paths
/// of the candidates that are directories, each once, in order.
pub fn mod_addon_directories(found: &Vec<Option<String>>) -> (r: Vec<String>)
    ensures
        string_views(r@) == first_occurrences(optional_views(found@)),
{
    let mut out: Vec<String> = Vec::new();
    let mut i: usize = 0;
    while i < found.len()
        invariant
            i <= found@.len(),
            string_views(out@) == first_occurrences(optional_views(found@).take(i as int)),
        decreases found@.len() - i,
    {
        let ghost before = string_views(out@);
        proof {
            assert(optional_views(found@).take(i + 1).drop_last() =~= optional_views(found@).take(
                i as int,
            ));
        }
        match &found[i] {
            Some(path) => {
                let mut seen = false;
                let mut j: usize = 0;
                while j < out.len()
                    invariant
                        j <= out@.len(),
                        before == string_views(out@),
                        seen == exists|k: int| 0 <= k < j && out@[k]@ == path@,
                    decreases out@.len() - j,
                {
                    if str_eq(out[j].as_str(), path.as_str()) {
                        seen = true;
                    }
                    j = j + 1;
                }
                proof {
                    if seen {
                        let k = choose|k: int| 0 <= k < out@.len() && out@[k]@ == path@;
                        assert(before[k] == path@);
                    } else if before.contains(path@) {
                        let k = choose|k: int| 0 <= k < before.len() && before[k] == path@;
                        assert(out@[k]@ == path@);
                    }
                }
                if !seen {
                    out.push(clone_string(path));
                    proof {
                        assert(string_views(out@) =~= before.push(path@));
                    }
                }
            },
            None => {},
        }
        i = i + 1;
    }
    assert(optional_views(found@).take(found@.len() as int) =~= optional_views(found@));
    out
}

// ---------------------------------------------------------------------------
// Cached icons
// ---------------------------------------------------------------------------

/// The last `count` lower-case hexadecimal digits of `value`, most
/// significant first (`{value:016x}` for sixteen).
pub open spec fn hex_digits(value: nat, count: nat) -> Seq<char>
    decreases count,
{
    if count == 0 {
        Seq::empty()
    } else {
        hex_digits(value / 16, (count - 1) as nat).push(
            crate::companion::hex_digit((value % 16) as u8),
        )
    }
}

fn push_hex_digits(out: &mut String, value: u64, count: u8)
    ensures
        final(out)@ == old(out)@ + hex_digits(value as nat, count as nat),
    decreases count,
{
    if count == 0 {
        assert(old(out)@ + hex_digits(value as nat, 0) =~= old(out)@);
        return;
    }
    push_hex_digits(out, value / 16, count - 1);
    let digit = (value % 16) as u8;
    let c = if digit < 10 {
        (digit + 48) as char
    } else {
        (digit + 87) as char
    };
    assert(c == crate::companion::hex_digit(digit));
    let ghost before = out@;
    push_char(out, c);
    assert(out@ =~= before.push(c));
}

/// The name of a cached icon: the marker type, `_`, the reference's hash
/// as sixteen hexadecimal digits, and `.png`.
pub fn cache_file_name(marker_type: &str, reference_hash: u64) -> (r: String)
    ensures
        r@ == marker_type@ + seq!['_'] + hex_digits(reference_hash as nat, 16) + ".png"@,
{
    let mut name = hashed_icon_key(marker_type, reference_hash);
    name.append(".png");
    name
}

/// What std's `DefaultHasher`, as `DefaultHasher::new` makes it (with fixed
/// keys, the same in every process of a build), gives for the string
/// `text`.
pub uninterp spec fn default_hash_of_str(text: Seq<char>) -> u64;

/// `BuildHasher::hash_one` with `BuildHasherDefault<DefaultHasher>`: the
/// hash of an icon path, as `DefaultHasher::new`, `Hash::hash` and
/// `Hasher::finish` give it. The result is [`default_hash_of_str`] of the
/// path.
#[verifier::external_body]
fn hash_icon_path(icon_path: &str) -> (r: u64)
    ensures
        r == default_hash_of_str(icon_path@),
{
    std::hash::BuildHasher::hash_one(
        &std::hash::BuildHasherDefault::<std::collections::hash_map::DefaultHasher>::default(),
        icon_path,
    )
}

/// `icon_blocking`'s cache file: the marker type, `_`, the hash of the
/// icon path as sixteen hexadecimal digits, and `.png`.
pub fn icon_cache_file_name(marker_type: &str, icon_path: &str) -> (r: String)
    ensures
        r@ == marker_type@ + seq!['_'] + hex_digits(default_hash_of_str(icon_path@) as nat, 16)
            + ".png"@,
{
    cache_file_name(marker_type, hash_icon_path(icon_path))
}

/// The cache key of the entity or overlay icon at `icon_path`: `prefix`,
/// `_`, and the hash of the path as sixteen hexadecimal digits.
pub fn icon_cache_key(prefix: &str, icon_path: &str) -> (r: String)
    ensures
        r@ == prefix@ + seq!['_'] + hex_digits(default_hash_of_str(icon_path@) as nat, 16),
{
    hashed_icon_key(prefix, hash_icon_path(icon_path))
}

/// The cache key of an entity or overlay icon: `prefix` (`entity` or
/// `overlay`), `_`, and the icon path's hash as sixteen hexadecimal digits.
pub fn hashed_icon_key(prefix: &str, reference_hash: u64) -> (r: String)
    ensures
        r@ == prefix@ + seq!['_'] + hex_digits(reference_hash as nat, 16),
{
    let mut name = lit(prefix);
    push_char(&mut name, '_');
    push_hex_digits(&mut name, reference_hash, 16);
    name
}

} // verus!
