//! A minimal structural JSON reader over the bytes of one request. Not a
//! general parser: it walks a JSON object's top-level members and returns raw
//! value slices, skipping nested structure so a key inside `params` never
//! matches at the outer level.
use vstd::prelude::*;

verus! {

/// JSON insignificant whitespace.
pub open spec fn is_ws(b: u8) -> bool {
    b == 32 || b == 9 || b == 10 || b == 13
}

/// First index at or after `i` that is not JSON whitespace (or `i` itself
/// once past the end).
pub open spec fn ws_end(s: Seq<u8>, i: int) -> int
    decreases s.len() - i,
{
    if i < 0 || i >= s.len() || !is_ws(s[i]) { i } else { ws_end(s, i + 1) }
}

/// Scanning string content from `j`: the index just past the closing quote,
/// skipping each backslash together with the byte after it; the length of
/// `s` when the string never closes.
pub open spec fn string_end(s: Seq<u8>, j: int) -> int
    decreases s.len() + 2 - j,
{
    if j < 0 || j >= s.len() {
        s.len() as int
    } else if s[j] == 92 {
        string_end(s, j + 2)
    } else if s[j] == 34 {
        j + 1
    } else {
        string_end(s, j + 1)
    }
}

pub proof fn lemma_ws_end(s: Seq<u8>, i: int)
    requires
        0 <= i,
    ensures
        i <= ws_end(s, i),
        i <= s.len() ==> ws_end(s, i) <= s.len(),
        ws_end(s, i) < s.len() ==> !is_ws(s[ws_end(s, i)]),
    decreases s.len() - i,
{
    if i < s.len() && is_ws(s[i]) {
        lemma_ws_end(s, i + 1);
    }
}

pub proof fn lemma_string_end(s: Seq<u8>, j: int)
    requires
        0 <= j,
    ensures
        j <= s.len() ==> j <= string_end(s, j) <= s.len(),
        string_end(s, j) <= s.len(),
    decreases s.len() + 2 - j,
{
    if j < s.len() {
        if s[j] == 92 {
            lemma_string_end(s, j + 2);
        } else if s[j] != 34 {
            lemma_string_end(s, j + 1);
        }
    }
}

/// Scanning from `j` inside brackets nested `depth` deep: the index just past
/// the bracket that closes the outermost one (the length of `s` if none).
/// Any bracket kind nests; strings are skipped whole.
pub open spec fn container_end(s: Seq<u8>, j: int, depth: int) -> int
    decreases s.len() - j,
{
    if j < 0 || j >= s.len() {
        s.len() as int
    } else if s[j] == 34 {
        let k = string_end(s, j + 1);
        if k <= j || k > s.len() { s.len() as int } else { container_end(s, k, depth) }
    } else if s[j] == 123 || s[j] == 91 {
        container_end(s, j + 1, depth + 1)
    } else if s[j] == 125 || s[j] == 93 {
        if depth - 1 == 0 { j + 1 } else { container_end(s, j + 1, depth - 1) }
    } else {
        container_end(s, j + 1, depth)
    }
}

pub proof fn lemma_container_end(s: Seq<u8>, j: int, depth: int)
    requires
        0 <= j <= s.len(),
    ensures
        j <= container_end(s, j, depth) <= s.len(),
    decreases s.len() - j,
{
    if j < s.len() {
        if s[j] == 34 {
            lemma_string_end(s, j + 1);
            let k = string_end(s, j + 1);
            if k > j && k <= s.len() {
                lemma_container_end(s, k, depth);
            }
        } else if s[j] == 123 || s[j] == 91 {
            lemma_container_end(s, j + 1, depth + 1);
        } else if s[j] == 125 || s[j] == 93 {
            if depth - 1 != 0 {
                lemma_container_end(s, j + 1, depth - 1);
            }
        } else {
            lemma_container_end(s, j + 1, depth);
        }
    }
}

/// A structural byte ending a scalar value.
pub open spec fn is_delim(b: u8) -> bool {
    b == 44 || b == 125 || b == 93
}

/// The first index at or after `j` holding `,`, `}` or `]` (else the length).
pub open spec fn scalar_end(s: Seq<u8>, j: int) -> int
    decreases s.len() - j,
{
    if j < 0 || j >= s.len() || is_delim(s[j]) { if j < 0 || j >= s.len() { s.len() as int } else { j } } else { scalar_end(s, j + 1) }
}

pub proof fn lemma_scalar_end(s: Seq<u8>, j: int)
    requires
        0 <= j <= s.len(),
    ensures
        j <= scalar_end(s, j) <= s.len(),
        forall|k: int| j <= k < scalar_end(s, j) ==> !is_delim(#[trigger] s[k]),
    decreases s.len() - j,
{
    if j < s.len() && !is_delim(s[j]) {
        lemma_scalar_end(s, j + 1);
    }
}

/// The index just past the value that starts at (or after whitespace from) `i`.
pub open spec fn value_end(s: Seq<u8>, i: int) -> int {
    let k = ws_end(s, i);
    if k < 0 || k >= s.len() {
        s.len() as int
    } else if s[k] == 34 {
        string_end(s, k + 1)
    } else if s[k] == 123 || s[k] == 91 {
        container_end(s, k, 0)
    } else {
        scalar_end(s, k)
    }
}

pub proof fn lemma_value_end(s: Seq<u8>, i: int)
    requires
        0 <= i <= s.len(),
    ensures
        i <= value_end(s, i) <= s.len(),
{
    lemma_ws_end(s, i);
    let k = ws_end(s, i);
    if 0 <= k < s.len() {
        if s[k] == 34 {
            lemma_string_end(s, k + 1);
        } else if s[k] == 123 || s[k] == 91 {
            lemma_container_end(s, k, 0);
        } else {
            lemma_scalar_end(s, k);
        }
    }
}

/// Skip JSON whitespace from `i`.
pub fn skip_ws(s: &[u8], i: usize) -> (r: usize)
    ensures
        r == ws_end(s@, i as int),
{
    let i0 = i;
    let mut i = i;
    while i < s.len() && (s[i] == 32 || s[i] == 9 || s[i] == 10 || s[i] == 13)
        invariant
            ws_end(s@, i as int) == ws_end(s@, i0 as int),
        decreases s@.len() - i,
    {
        i += 1;
    }
    i
}

/// `i` at the opening quote; the index just past the closing quote.
pub fn skip_string(s: &[u8], i: usize) -> (r: usize)
    requires
        i < s@.len(),
        s@.len() < usize::MAX,
    ensures
        r == string_end(s@, i + 1),
{
    let mut j = i + 1;
    while j < s.len()
        invariant
            i + 1 <= j <= s@.len() + 1,
            s@.len() < usize::MAX,
            string_end(s@, j as int) == string_end(s@, i + 1),
        decreases s@.len() + 2 - j,
    {
        if s[j] == 92 {
            j += 2;
        } else if s[j] == 34 {
            return j + 1;
        } else {
            j += 1;
        }
    }
    s.len()
}

/// `i` at `{` or `[`; the index just past the matching close. Any bracket
/// kind nests; strings are skipped whole so quoted brackets don't miscount.
pub fn skip_container(s: &[u8], i: usize) -> (r: usize)
    requires
        i <= s@.len(),
        s@.len() <= i32::MAX,
    ensures
        r == container_end(s@, i as int, 0),
{
    let mut depth: i32 = 0;
    let mut j = i;
    while j < s.len()
        invariant
            i <= j <= s@.len(),
            s@.len() <= i32::MAX,
            -(j - i) <= depth <= j - i,
            container_end(s@, j as int, depth as int) == container_end(s@, i as int, 0),
        decreases s@.len() - j,
    {
        let b = s[j];
        if b == 34 {
            proof { lemma_string_end(s@, j + 1); }
            j = skip_string(s, j);
        } else if b == 123 || b == 91 {
            depth += 1;
            j += 1;
        } else if b == 125 || b == 93 {
            depth -= 1;
            j += 1;
            if depth == 0 {
                return j;
            }
        } else {
            j += 1;
        }
    }
    s.len()
}

/// `i` at (or before whitespace ahead of) the first byte of a value; the
/// index just past it.
pub fn skip_value(s: &[u8], i: usize) -> (r: usize)
    requires
        s@.len() <= i32::MAX,
    ensures
        r == value_end(s@, i as int),
{
    let i = skip_ws(s, i);
    proof { lemma_ws_end(s@, i as int); }
    if i >= s.len() {
        return s.len();
    }
    let b = s[i];
    if b == 34 {
        skip_string(s, i)
    } else if b == 123 || b == 91 {
        skip_container(s, i)
    } else {
        let mut j = i;
        while j < s.len() && !(s[j] == 44 || s[j] == 125 || s[j] == 93)
            invariant
                i <= j <= s@.len(),
                scalar_end(s@, j as int) == scalar_end(s@, i as int),
            decreases s@.len() - j,
        {
            j += 1;
        }
        j
    }
}

/// Byte-string equality.
pub fn bytes_eq(a: &[u8], b: &[u8]) -> (r: bool)
    ensures
        r == (a@ == b@),
{
    if a.len() != b.len() {
        return false;
    }
    let mut k: usize = 0;
    while k < a.len()
        invariant
            k <= a@.len(),
            a@.len() == b@.len(),
            a@.subrange(0, k as int) == b@.subrange(0, k as int),
        decreases a@.len() - k,
    {
        if a[k] != b[k] {
            assert(a@[k as int] != b@[k as int]);
            return false;
        }
        assert(a@.subrange(0, k + 1) == a@.subrange(0, k as int).push(a@[k as int]));
        assert(b@.subrange(0, k + 1) == b@.subrange(0, k as int).push(b@[k as int]));
        k += 1;
    }
    assert(a@ == a@.subrange(0, a@.len() as int));
    assert(b@ == b@.subrange(0, b@.len() as int));
    true
}

/// Length of the Unicode `White_Space` character whose UTF-8 encoding starts
/// at `i` (0 if none does): U+0009..U+000D, U+0020, U+0085, U+00A0, U+1680,
/// U+2000..U+200A, U+2028, U+2029, U+202F, U+205F, U+3000.
pub open spec fn ws_char_at(s: Seq<u8>, i: int) -> int {
    if 0 <= i < s.len() && ((9 <= s[i] <= 13) || s[i] == 32) {
        1
    } else if 0 <= i && i + 1 < s.len() && s[i] == 0xC2 && (s[i + 1] == 0x85 || s[i + 1] == 0xA0) {
        2
    } else if 0 <= i && i + 2 < s.len() && is_ws3(s[i], s[i + 1], s[i + 2]) {
        3
    } else {
        0
    }
}

/// Length of the `White_Space` character whose encoding ends just before `j`.
pub open spec fn ws_char_before(s: Seq<u8>, j: int) -> int {
    if 1 <= j <= s.len() && ((9 <= s[j - 1] <= 13) || s[j - 1] == 32) {
        1
    } else if 2 <= j <= s.len() && s[j - 2] == 0xC2 && (s[j - 1] == 0x85 || s[j - 1] == 0xA0) {
        2
    } else if 3 <= j <= s.len() && is_ws3(s[j - 3], s[j - 2], s[j - 1]) {
        3
    } else {
        0
    }
}

/// The three-byte encodings of `White_Space` characters.
pub open spec fn is_ws3(a: u8, b: u8, c: u8) -> bool {
    ||| (a == 0xE1 && b == 0x9A && c == 0x80)
    ||| (a == 0xE2 && b == 0x80 && (0x80 <= c <= 0x8A || c == 0xA8 || c == 0xA9 || c == 0xAF))
    ||| (a == 0xE2 && b == 0x81 && c == 0x9F)
    ||| (a == 0xE3 && b == 0x80 && c == 0x80)
}

/// Index of the first byte after the leading whitespace from `i`.
pub open spec fn trim_start_at(s: Seq<u8>, i: int) -> int
    decreases s.len() - i,
{
    if 0 <= i && ws_char_at(s, i) > 0 { trim_start_at(s, i + ws_char_at(s, i)) } else { i }
}

/// Index just past the last non-whitespace character of `s[lo..j]`.
pub open spec fn trim_end_at(s: Seq<u8>, lo: int, j: int) -> int
    decreases j,
{
    if j > lo && j > 0 && ws_char_before(s, j) > 0 && j - ws_char_before(s, j) >= lo {
        trim_end_at(s, lo, j - ws_char_before(s, j))
    } else {
        j
    }
}

/// `str::trim`: `s` without leading and trailing `White_Space` characters.
pub open spec fn trimmed(s: Seq<u8>) -> Seq<u8> {
    let a = trim_start_at(s, 0);
    s.subrange(a, trim_end_at(s, a, s.len() as int))
}

/// `str::trim_start`.
pub open spec fn trimmed_start(s: Seq<u8>) -> Seq<u8> {
    s.subrange(trim_start_at(s, 0), s.len() as int)
}

pub proof fn lemma_trim_start_at(s: Seq<u8>, i: int)
    requires
        0 <= i <= s.len(),
    ensures
        i <= trim_start_at(s, i) <= s.len(),
    decreases s.len() - i,
{
    if ws_char_at(s, i) > 0 {
        lemma_trim_start_at(s, i + ws_char_at(s, i));
    }
}

pub proof fn lemma_trim_end_at(s: Seq<u8>, lo: int, j: int)
    requires
        0 <= lo <= j <= s.len(),
    ensures
        lo <= trim_end_at(s, lo, j) <= j,
    decreases j,
{
    if j > lo && j > 0 && ws_char_before(s, j) > 0 && j - ws_char_before(s, j) >= lo {
        lemma_trim_end_at(s, lo, j - ws_char_before(s, j));
    }
}

/// Length of the whitespace character starting at `i` (0 if none).
fn ws_char_at_exec(s: &[u8], i: usize) -> (r: usize)
    requires
        i <= s@.len(),
    ensures
        r == ws_char_at(s@, i as int),
        i + r <= s@.len(),
{
    let n = s.len();
    if i < n && ((9 <= s[i] && s[i] <= 13) || s[i] == 32) {
        1
    } else if i < n && n - i > 1 && s[i] == 0xC2 && (s[i + 1] == 0x85 || s[i + 1] == 0xA0) {
        2
    } else if i < n && n - i > 2 && is_ws3_exec(s[i], s[i + 1], s[i + 2]) {
        3
    } else {
        0
    }
}

fn is_ws3_exec(a: u8, b: u8, c: u8) -> (r: bool)
    ensures
        r == is_ws3(a, b, c),
{
    (a == 0xE1 && b == 0x9A && c == 0x80)
        || (a == 0xE2 && b == 0x80 && ((0x80 <= c && c <= 0x8A) || c == 0xA8 || c == 0xA9 || c == 0xAF))
        || (a == 0xE2 && b == 0x81 && c == 0x9F)
        || (a == 0xE3 && b == 0x80 && c == 0x80)
}

/// Length of the whitespace character ending just before `j` (0 if none).
fn ws_char_before_exec(s: &[u8], j: usize) -> (r: usize)
    requires
        j <= s@.len(),
    ensures
        r == ws_char_before(s@, j as int),
{
    if 1 <= j && ((9 <= s[j - 1] && s[j - 1] <= 13) || s[j - 1] == 32) {
        1
    } else if 2 <= j && s[j - 2] == 0xC2 && (s[j - 1] == 0x85 || s[j - 1] == 0xA0) {
        2
    } else if 3 <= j && is_ws3_exec(s[j - 3], s[j - 2], s[j - 1]) {
        3
    } else {
        0
    }
}

/// `str::trim_start` on bytes.
pub fn trim_start(s: &[u8]) -> (r: &[u8])
    ensures
        r@ == trimmed_start(s@),
{
    let n = s.len();
    let mut i: usize = 0;
    let mut w = ws_char_at_exec(s, 0);
    while w > 0
        invariant
            n == s@.len(),
            i <= s@.len(),
            w == ws_char_at(s@, i as int),
            i + w <= s@.len(),
            trim_start_at(s@, i as int) == trim_start_at(s@, 0),
        decreases s@.len() - i,
    {
        i = i + w;
        w = ws_char_at_exec(s, i);
    }
    &s[i..s.len()]
}

/// `str::trim` on bytes.
pub fn trim(s: &[u8]) -> (r: &[u8])
    ensures
        r@ == trimmed(s@),
{
    let n = s.len();
    let mut i: usize = 0;
    let mut w = ws_char_at_exec(s, 0);
    while w > 0
        invariant
            n == s@.len(),
            i <= s@.len(),
            w == ws_char_at(s@, i as int),
            i + w <= s@.len(),
            trim_start_at(s@, i as int) == trim_start_at(s@, 0),
        decreases s@.len() - i,
    {
        i = i + w;
        w = ws_char_at_exec(s, i);
    }
    let mut j: usize = s.len();
    while j > i && ws_char_before_exec(s, j) > 0 && j - ws_char_before_exec(s, j) >= i
        invariant
            i <= j <= s@.len(),
            i == trim_start_at(s@, 0),
            trim_end_at(s@, i as int, j as int) == trim_end_at(s@, i as int, s@.len() as int),
        decreases j,
    {
        j = j - ws_char_before_exec(s, j);
    }
    &s[i..j]
}

/// A raw value that is a JSON string: its inner content.
pub open spec fn string_inner(raw: Seq<u8>) -> Option<Seq<u8>> {
    if raw.len() >= 2 && raw[0] == 34 && raw[raw.len() - 1] == 34 {
        Some(raw.subrange(1, raw.len() - 1))
    } else {
        None
    }
}

/// A raw value slice that is a JSON string: its inner content (no unescaping;
/// request strings carry no escapes, so the inner slice compares directly).
pub fn as_string(raw: &[u8]) -> (r: Option<&[u8]>)
    ensures
        r.is_some() == string_inner(raw@).is_some(),
        r.is_some() ==> r.unwrap()@ == string_inner(raw@).unwrap(),
{
    let n = raw.len();
    if n >= 2 && raw[0] == 34 && raw[n - 1] == 34 {
        Some(&raw[1..n - 1])
    } else {
        None
    }
}

/// Walking an object's members from `i` (just past `{` or a `,`): the raw
/// range of the value of the first top-level member named `key`.
pub open spec fn member_range(s: Seq<u8>, i: int, key: Seq<u8>) -> Option<(int, int)>
    decreases s.len() - i,
{
    let i1 = ws_end(s, i);
    if i < 0 || i1 < 0 || i1 >= s.len() || s[i1] != 34 {
        None
    } else {
        let key_end = string_end(s, i1 + 1);
        if key_end - 1 < i1 + 1 {
            None
        } else {
            let i2 = ws_end(s, key_end);
            if i2 < 0 || i2 >= s.len() || s[i2] != 58 {
                None
            } else {
                let vs = ws_end(s, i2 + 1);
                let ve = value_end(s, vs);
                if s.subrange(i1 + 1, key_end - 1) == key {
                    Some((vs, ve))
                } else {
                    let i3 = ws_end(s, ve);
                    if 0 <= i3 < s.len() && s[i3] == 44 && i3 + 1 > i {
                        member_range(s, i3 + 1, key)
                    } else {
                        None
                    }
                }
            }
        }
    }
}

/// The raw range of top-level member `key` of the JSON object `s`.
pub open spec fn object_member(s: Seq<u8>, key: Seq<u8>) -> Option<(int, int)> {
    let i = ws_end(s, 0);
    if i >= s.len() || s[i] != 123 { None } else { member_range(s, i + 1, key) }
}

/// The trimmed value of top-level member `key` of `s`, if present.
pub open spec fn member_value(s: Seq<u8>, key: Seq<u8>) -> Option<Seq<u8>> {
    match object_member(s, key) {
        Some(r) => Some(trimmed(s.subrange(r.0, r.1))),
        None => None,
    }
}

/// Leading-whitespace trimming stops at a byte that starts no whitespace
/// character.
proof fn lemma_trim_start_stops(s: Seq<u8>, i: int)
    requires
        0 <= i <= s.len(),
    ensures
        ws_char_at(s, trim_start_at(s, i)) == 0,
    decreases s.len() - i,
{
    if ws_char_at(s, i) > 0 {
        lemma_trim_start_stops(s, i + ws_char_at(s, i));
    }
}

/// Trailing-whitespace trimming stops at `lo` or after a byte that is no
/// one-byte whitespace character.
proof fn lemma_trim_end_stops(s: Seq<u8>, lo: int, j: int)
    requires
        0 <= lo <= j <= s.len(),
    ensures
        trim_end_at(s, lo, j) == lo || ws_char_before(s, trim_end_at(s, lo, j)) != 1,
    decreases j,
{
    if j > lo && j > 0 && ws_char_before(s, j) > 0 && j - ws_char_before(s, j) >= lo {
        lemma_trim_end_at(s, lo, j - ws_char_before(s, j));
        lemma_trim_end_stops(s, lo, j - ws_char_before(s, j));
    }
}

/// What trimming leaves neither starts nor ends with an ASCII whitespace
/// byte (tab, line feed, vertical tab, form feed, carriage return, space).
pub proof fn lemma_trimmed_edges(t: Seq<u8>)
    ensures
        trimmed(t).len() > 0 ==> !(9 <= trimmed(t)[0] <= 13 || trimmed(t)[0] == 32),
        trimmed(t).len() > 0 ==> !(9 <= trimmed(t).last() <= 13 || trimmed(t).last() == 32),
{
    let a = trim_start_at(t, 0);
    lemma_trim_start_at(t, 0);
    lemma_trim_start_stops(t, 0);
    let e = trim_end_at(t, a, t.len() as int);
    lemma_trim_end_at(t, a, t.len() as int);
    lemma_trim_end_stops(t, a, t.len() as int);
    if e > a {
        assert(trimmed(t)[0] == t[a]);
        assert(trimmed(t).last() == t[e - 1]);
    }
}

/// A member's value comes back without surrounding JSON whitespace: it is
/// empty, or its first and last bytes are not whitespace.
pub proof fn lemma_member_value_trimmed(s: Seq<u8>, key: Seq<u8>)
    ensures
        member_value(s, key) matches Some(v) ==> v.len() == 0 || (!is_ws(v[0]) && !is_ws(v.last())),
{
    if let Some(r) = object_member(s, key) {
        lemma_trimmed_edges(s.subrange(r.0, r.1));
    }
}

/// Find top-level member `key` in the JSON object `obj`; return its raw value
/// slice (trimmed), or None if absent or `obj` isn't a well-formed object.
pub fn object_get<'a>(obj: &'a [u8], key: &[u8]) -> (r: Option<&'a [u8]>)
    requires
        obj@.len() <= i32::MAX,
    ensures
        r.is_some() == member_value(obj@, key@).is_some(),
        r.is_some() ==> r.unwrap()@ == member_value(obj@, key@).unwrap(),
        r.is_some() ==> r.unwrap()@.len() <= obj@.len(),
{
    let s = obj;
    let n = s.len();
    let mut i = skip_ws(s, 0);
    proof { lemma_ws_end(s@, 0); }
    if i >= n || s[i] != 123 {
        return None;
    }
    i += 1;
    loop
        invariant
            s@ == obj@,
            n == s@.len(),
            n <= i32::MAX,
            1 <= i <= n,
            object_member(s@, key@) == member_range(s@, i as int, key@),
        decreases n - i,
    {
        let i1 = skip_ws(s, i);
        proof { lemma_ws_end(s@, i as int); }
        if i1 >= n || s[i1] != 34 {
            return None;
        }
        let key_end = skip_string(s, i1);
        proof { lemma_string_end(s@, i1 + 1); }
        if key_end - 1 < i1 + 1 {
            return None;
        }
        let this_key = &s[i1 + 1..key_end - 1];
        let k = skip_ws(s, key_end);
        proof { lemma_ws_end(s@, key_end as int); }
        if k >= n || s[k] != 58 {
            return None;
        }
        let val_start = skip_ws(s, k + 1);
        proof { lemma_ws_end(s@, k + 1); }
        let val_end = skip_value(s, val_start);
        proof { lemma_value_end(s@, val_start as int); }
        if bytes_eq(this_key, key) {
            let raw = &s[val_start..val_end];
            proof {
                lemma_trim_start_at(raw@, 0);
                lemma_trim_end_at(raw@, trim_start_at(raw@, 0), raw@.len() as int);
            }
            return Some(trim(raw));
        }
        let m = skip_ws(s, val_end);
        proof { lemma_ws_end(s@, val_end as int); }
        if m < n && s[m] == 44 {
            i = m + 1;
            continue;
        }
        return None;
    }
}

} // verus!
