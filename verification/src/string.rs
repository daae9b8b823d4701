use vstd::prelude::*;
use vstd::string::StringSliceAdditionalSpecFns;
use vstd::utf8::{is_char_boundary, is_continuation_byte, encode_utf8, is_ascii_chars};
use crate::bytes::{matches_at, extend_bytes, bytes_match_at, bytes_equal, join_with, copy_range};

verus! {

// ── Length / byte access ───────────────────────────────────────────

/// Length in bytes of a string; an absent (null) string has length 0.
pub fn pico_string_length(s: Option<&[u8]>) -> (r: i32)
    ensures
        r == match s {
            Some(b) => b@.len() as i32,
            None => 0,
        },
{
    match s {
        Some(b) => b.len() as i32,
        None => 0,
    }
}

/// The byte at `index`, or -1 when `index` is out of range.
pub fn pico_string_char_at(s: &[u8], index: i32) -> (r: i32)
    ensures
        r == (if 0 <= index < s@.len() { s@[index as int] as i32 } else { -1i32 }),
{
    if index >= 0 && (index as u64) < (s.len() as u64) {
        s[index as usize] as i32
    } else {
        -1
    }
}

// ── Substring ──────────────────────────────────────────────────────

/// Byte offset at which a substring starts: a negative start counts as 0.
pub open spec fn clamp_start(start: i32) -> int {
    if start < 0 { 0 } else { start as int }
}

/// Byte offset at which a substring of `length` bytes from `start` ends in
/// a string of `n` bytes: a negative length reaches to the end, and the end
/// is cut at `n`.
pub open spec fn substring_end(n: int, start: i32, length: i32) -> int {
    let s = clamp_start(start);
    if length < 0 || s + length >= n { n } else { s + length }
}

/// The bytes that a substring takes from `s`: empty when the start is at or
/// past the end.
pub open spec fn substring_spec(s: Seq<u8>, start: i32, length: i32) -> Seq<u8> {
    let from = clamp_start(start);
    if from < s.len() {
        s.subrange(from, substring_end(s.len() as int, start, length))
    } else {
        Seq::empty()
    }
}

/// The substring's byte range falls on character boundaries whenever it is
/// taken (the cut is refused between the bytes of one character).
pub open spec fn substring_on_boundaries(s: Seq<u8>, start: i32, length: i32) -> bool {
    clamp_start(start) < s.len() ==> {
        &&& is_char_boundary(s, clamp_start(start))
        &&& is_char_boundary(s, substring_end(s.len() as int, start, length))
    }
}

/// The bytes of `s` from byte `start`, `length` bytes long (to the end when
/// `length` is negative); see `substring_spec`.
pub fn pico_string_substring(s: &str, start: i32, length: i32) -> (r: Vec<u8>)
    requires
        substring_on_boundaries(s.spec_bytes(), start, length),
    ensures
        r@ == substring_spec(s.spec_bytes(), start, length),
{
    let b = s.as_bytes();
    let n = b.len();
    let from: u64 = if start < 0 { 0 } else { start as u64 };
    if from < n as u64 {
        let from = from as usize;
        let to: usize = if length < 0 || (length as u64) >= (n - from) as u64 { n } else { from + length as usize };
        copy_range(b, from, to)
    } else {
        Vec::new()
    }
}

// ── Search ─────────────────────────────────────────────────────────

/// `i` is the first byte offset at or after `from` where `needle` occurs in
/// `hay`.
pub open spec fn is_first_match_from(hay: Seq<u8>, needle: Seq<u8>, from: int, i: int) -> bool {
    &&& from <= i
    &&& matches_at(hay, needle, i)
    &&& forall|j: int| from <= j < i ==> !matches_at(hay, needle, j)
}

/// `needle` occurs somewhere in `hay`.
pub open spec fn occurs_in(hay: Seq<u8>, needle: Seq<u8>) -> bool {
    exists|i: int| matches_at(hay, needle, i)
}

/// First occurrence of `needle` in `hay` at or after `from`.
fn find_from(hay: &[u8], needle: &[u8], from: usize) -> (r: Option<usize>)
    ensures
        match r {
            Some(i) => is_first_match_from(hay@, needle@, from as int, i as int),
            None => forall|j: int| from <= j ==> !matches_at(hay@, needle@, j),
        },
{
    if needle.len() > hay.len() {
        return None;
    }
    let last = hay.len() - needle.len();
    let mut i = from;
    while i <= last
        invariant
            from <= i,
            last + needle@.len() == hay@.len(),
            forall|j: int| from <= j < i ==> !matches_at(hay@, needle@, j),
        decreases last + 1 - i,
    {
        if bytes_match_at(hay, needle, i) {
            return Some(i);
        }
        if i == last {
            return None;
        }
        i += 1;
    }
    None
}

/// Byte offset of the first occurrence of `needle` in `s` at or after
/// `offset` (a negative offset counts as 0); -1 when there is none or the
/// offset is at or past the end.
pub fn pico_string_index_of(s: &str, needle: &str, offset: i32) -> (r: i32)
    requires
        clamp_start(offset) < s.spec_bytes().len() ==> is_char_boundary(s.spec_bytes(), clamp_start(offset)),
    ensures
        ({
            let h = s.spec_bytes();
            let from = clamp_start(offset);
            if from >= h.len() {
                r == -1
            } else {
                (exists|i: int| is_first_match_from(h, needle.spec_bytes(), from, i) && r == i as i32)
                    || (r == -1 && forall|j: int| from <= j ==> !matches_at(h, needle.spec_bytes(), j))
            }
        }),
{
    let h = s.as_bytes();
    let n = needle.as_bytes();
    let from: u64 = if offset < 0 { 0 } else { offset as u64 };
    if from >= h.len() as u64 {
        return -1;
    }
    match find_from(h, n, from as usize) {
        Some(i) => i as i32,
        None => -1,
    }
}

/// Whether `s` begins with `prefix`.
pub fn pico_string_starts_with(s: &str, prefix: &str) -> (r: bool)
    ensures
        r == matches_at(s.spec_bytes(), prefix.spec_bytes(), 0),
{
    bytes_match_at(s.as_bytes(), prefix.as_bytes(), 0)
}

/// Whether `s` ends with `suffix`.
pub fn pico_string_ends_with(s: &str, suffix: &str) -> (r: bool)
    ensures
        r == (suffix.spec_bytes().len() <= s.spec_bytes().len()
            && matches_at(s.spec_bytes(), suffix.spec_bytes(), s.spec_bytes().len() - suffix.spec_bytes().len())),
{
    let h = s.as_bytes();
    let x = suffix.as_bytes();
    if x.len() > h.len() {
        false
    } else {
        bytes_match_at(h, x, h.len() - x.len())
    }
}

/// Whether `needle` occurs in `s`.
pub fn pico_string_contains(s: &str, needle: &str) -> (r: bool)
    ensures
        r == occurs_in(s.spec_bytes(), needle.spec_bytes()),
{
    match find_from(s.as_bytes(), needle.as_bytes(), 0) {
        Some(_) => true,
        None => false,
    }
}

// ── Concat / equality ─────────────────────────────────────────────

/// The bytes of `a` followed by the bytes of `b`.
pub fn pico_string_concat(a: &str, b: &str) -> (r: Vec<u8>)
    ensures
        r@ == a.spec_bytes() + b.spec_bytes(),
{
    let mut out: Vec<u8> = Vec::new();
    extend_bytes(&mut out, a.as_bytes());
    extend_bytes(&mut out, b.as_bytes());
    assert(out@ =~= a.spec_bytes() + b.spec_bytes());
    out
}

/// Byte equality of two strings, where an absent (null) string equals only
/// another absent string.
pub fn pico_string_equals(a: Option<&[u8]>, b: Option<&[u8]>) -> (r: bool)
    ensures
        r == match (a, b) {
            (None, None) => true,
            (Some(x), Some(y)) => x@ == y@,
            _ => false,
        },
{
    match (a, b) {
        (None, None) => true,
        (Some(x), Some(y)) => bytes_equal(x, y),
        _ => false,
    }
}

// ── Replace ────────────────────────────────────────────────────────

/// `s` with every occurrence of the non-empty `from` replaced by `to`,
/// scanning left to right and never letting two occurrences overlap.
pub open spec fn replace_occurrences(s: Seq<u8>, from: Seq<u8>, to: Seq<u8>) -> Seq<u8>
    decreases s.len(),
{
    if from.len() == 0 || s.len() < from.len() {
        s
    } else if s.take(from.len() as int) == from {
        to + replace_occurrences(s.skip(from.len() as int), from, to)
    } else {
        seq![s[0]] + replace_occurrences(s.drop_first(), from, to)
    }
}

/// `s` with `to` inserted before every character and at the end: what
/// replacing the empty string does. A character starts at every byte that
/// is not a UTF-8 continuation byte.
pub open spec fn insert_between_chars(s: Seq<u8>, to: Seq<u8>) -> Seq<u8>
    decreases s.len(),
{
    if s.len() == 0 {
        to
    } else if is_continuation_byte(s[0]) {
        seq![s[0]] + insert_between_chars(s.drop_first(), to)
    } else {
        to + seq![s[0]] + insert_between_chars(s.drop_first(), to)
    }
}

/// The bytes of `s` with all matches of `from` replaced by `to`.
pub open spec fn replace_spec(s: Seq<u8>, from: Seq<u8>, to: Seq<u8>) -> Seq<u8> {
    if from.len() == 0 {
        insert_between_chars(s, to)
    } else {
        replace_occurrences(s, from, to)
    }
}

fn replace_nonempty(s: &[u8], from: &[u8], to: &[u8]) -> (r: Vec<u8>)
    requires
        from@.len() > 0,
    ensures
        r@ == replace_occurrences(s@, from@, to@),
{
    let mut out: Vec<u8> = Vec::new();
    let mut i: usize = 0;
    assert(s@.skip(0) =~= s@);
    while i < s.len()
        invariant
            i <= s@.len(),
            from@.len() > 0,
            out@ + replace_occurrences(s@.skip(i as int), from@, to@) == replace_occurrences(s@, from@, to@),
        decreases s@.len() - i,
    {
        let ghost rest = s@.skip(i as int);
        if from.len() > s.len() - i {
            extend_bytes(&mut out, copy_range(s, i, s.len()).as_slice());
            assert(s@.subrange(i as int, s@.len() as int) =~= rest);
            assert(out@ =~= replace_occurrences(s@, from@, to@));
            return out;
        }
        if bytes_match_at(s, from, i) {
            assert(rest.take(from@.len() as int) =~= s@.subrange(i as int, i + from@.len()));
            assert(rest.skip(from@.len() as int) =~= s@.skip(i + from@.len()));
            extend_bytes(&mut out, to);
            i += from.len();
            assert(out@ + replace_occurrences(s@.skip(i as int), from@, to@) =~= replace_occurrences(s@, from@, to@));
        } else {
            assert(rest.take(from@.len() as int) =~= s@.subrange(i as int, i + from@.len()));
            assert(rest.drop_first() =~= s@.skip(i + 1));
            out.push(s[i]);
            i += 1;
            assert(out@ + replace_occurrences(s@.skip(i as int), from@, to@) =~= replace_occurrences(s@, from@, to@));
        }
    }
    assert(s@.skip(i as int) =~= Seq::<u8>::empty());
    assert(out@ =~= replace_occurrences(s@, from@, to@));
    out
}

fn replace_empty(s: &[u8], to: &[u8]) -> (r: Vec<u8>)
    ensures
        r@ == insert_between_chars(s@, to@),
{
    let mut out: Vec<u8> = Vec::new();
    let mut i: usize = 0;
    assert(s@.skip(0) =~= s@);
    while i < s.len()
        invariant
            i <= s@.len(),
            out@ + insert_between_chars(s@.skip(i as int), to@) == insert_between_chars(s@, to@),
        decreases s@.len() - i,
    {
        let ghost rest = s@.skip(i as int);
        assert(rest.drop_first() =~= s@.skip(i + 1));
        let b = s[i];
        if !(0x80 <= b && b <= 0xbf) {
            extend_bytes(&mut out, to);
        }
        out.push(b);
        i += 1;
        assert(out@ + insert_between_chars(s@.skip(i as int), to@) =~= insert_between_chars(s@, to@));
    }
    assert(s@.skip(i as int) =~= Seq::<u8>::empty());
    extend_bytes(&mut out, to);
    assert(out@ =~= insert_between_chars(s@, to@));
    out
}

/// `s` with every match of `search` replaced by `replace`; see
/// `replace_spec`.
pub fn pico_string_replace(s: &str, search: &str, replace: &str) -> (r: Vec<u8>)
    ensures
        r@ == replace_spec(s.spec_bytes(), search.spec_bytes(), replace.spec_bytes()),
{
    let from = search.as_bytes();
    if from.len() == 0 {
        replace_empty(s.as_bytes(), replace.as_bytes())
    } else {
        replace_nonempty(s.as_bytes(), from, replace.as_bytes())
    }
}

// ── Split ──────────────────────────────────────────────────────────

/// The pieces of `cur + s` between the occurrences of the non-empty `d`,
/// found left to right without overlap; `cur` is the part of the current
/// piece already read.
pub open spec fn split_pieces(s: Seq<u8>, d: Seq<u8>, cur: Seq<u8>) -> Seq<Seq<u8>>
    decreases s.len(),
{
    if d.len() == 0 || s.len() < d.len() {
        seq![cur + s]
    } else if s.take(d.len() as int) == d {
        seq![cur] + split_pieces(s.skip(d.len() as int), d, Seq::empty())
    } else {
        split_pieces(s.drop_first(), d, cur.push(s[0]))
    }
}

/// The characters of `cur + s`, one piece each, followed by an empty piece;
/// `cur` is the part of the current character already read. A character
/// starts at every byte that is not a UTF-8 continuation byte.
pub open spec fn split_chars(s: Seq<u8>, cur: Seq<u8>) -> Seq<Seq<u8>>
    decreases s.len(),
{
    if s.len() == 0 {
        if cur.len() == 0 {
            seq![Seq::empty()]
        } else {
            seq![cur, Seq::empty()]
        }
    } else if !is_continuation_byte(s[0]) && cur.len() > 0 {
        seq![cur] + split_chars(s.drop_first(), seq![s[0]])
    } else {
        split_chars(s.drop_first(), cur.push(s[0]))
    }
}

/// The pieces of `s` around the matches of `d`. An empty `d` matches
/// before and after every character, so the pieces are an empty one, each
/// character, and another empty one.
pub open spec fn split_spec(s: Seq<u8>, d: Seq<u8>) -> Seq<Seq<u8>> {
    if d.len() == 0 {
        seq![Seq::<u8>::empty()] + split_chars(s, Seq::empty())
    } else {
        split_pieces(s, d, Seq::empty())
    }
}

/// The byte contents of each piece.
pub open spec fn piece_views(pieces: Seq<Vec<u8>>) -> Seq<Seq<u8>> {
    pieces.map_values(|p: Vec<u8>| p@)
}

fn split_nonempty(s: &[u8], d: &[u8]) -> (r: Vec<Vec<u8>>)
    requires
        d@.len() > 0,
    ensures
        piece_views(r@) == split_pieces(s@, d@, Seq::empty()),
{
    let mut pieces: Vec<Vec<u8>> = Vec::new();
    let mut i: usize = 0;
    let mut ps: usize = 0;
    assert(s@.skip(0) =~= s@);
    assert(s@.subrange(0, 0) =~= Seq::<u8>::empty());
    assert(piece_views(pieces@) =~= Seq::<Seq<u8>>::empty());
    loop
        invariant
            ps <= i <= s@.len(),
            d@.len() > 0,
            piece_views(pieces@) + split_pieces(s@.skip(i as int), d@, s@.subrange(ps as int, i as int))
                == split_pieces(s@, d@, Seq::empty()),
        decreases s@.len() - i,
    {
        let ghost rest = s@.skip(i as int);
        let ghost cur = s@.subrange(ps as int, i as int);
        if d.len() > s.len() - i {
            let last = copy_range(s, ps, s.len());
            assert(cur + rest =~= s@.subrange(ps as int, s@.len() as int));
            pieces.push(last);
            assert(piece_views(pieces@) =~= split_pieces(s@, d@, Seq::empty()));
            return pieces;
        }
        assert(rest.take(d@.len() as int) =~= s@.subrange(i as int, i + d@.len()));
        if bytes_match_at(s, d, i) {
            assert(rest.skip(d@.len() as int) =~= s@.skip(i + d@.len()));
            let piece = copy_range(s, ps, i);
            let ghost before = piece_views(pieces@);
            pieces.push(piece);
            assert(piece_views(pieces@) =~= before.push(cur));
            i += d.len();
            ps = i;
            assert(s@.subrange(ps as int, i as int) =~= Seq::<u8>::empty());
            assert(piece_views(pieces@) + split_pieces(s@.skip(i as int), d@, s@.subrange(ps as int, i as int))
                =~= before + (seq![cur] + split_pieces(rest.skip(d@.len() as int), d@, Seq::empty())));
        } else {
            assert(rest.drop_first() =~= s@.skip(i + 1));
            assert(cur.push(s@[i as int]) =~= s@.subrange(ps as int, i + 1));
            i += 1;
        }
    }
}

fn split_empty(s: &[u8]) -> (r: Vec<Vec<u8>>)
    ensures
        piece_views(r@) == seq![Seq::<u8>::empty()] + split_chars(s@, Seq::empty()),
{
    let mut pieces: Vec<Vec<u8>> = Vec::new();
    pieces.push(Vec::new());
    let mut i: usize = 0;
    let mut ps: usize = 0;
    assert(s@.skip(0) =~= s@);
    assert(s@.subrange(0, 0) =~= Seq::<u8>::empty());
    while i < s.len()
        invariant
            ps <= i <= s@.len(),
            piece_views(pieces@) + split_chars(s@.skip(i as int), s@.subrange(ps as int, i as int))
                == seq![Seq::<u8>::empty()] + split_chars(s@, Seq::empty()),
        decreases s@.len() - i,
    {
        let ghost rest = s@.skip(i as int);
        let ghost cur = s@.subrange(ps as int, i as int);
        assert(rest.drop_first() =~= s@.skip(i + 1));
        let b = s[i];
        if !(0x80 <= b && b <= 0xbf) && i > ps {
            let piece = copy_range(s, ps, i);
            let ghost before = piece_views(pieces@);
            pieces.push(piece);
            assert(piece_views(pieces@) =~= before.push(cur));
            ps = i;
            i += 1;
            assert(s@.subrange(ps as int, i as int) =~= seq![b]);
            assert(piece_views(pieces@) + split_chars(s@.skip(i as int), s@.subrange(ps as int, i as int))
                =~= before + (seq![cur] + split_chars(rest.drop_first(), seq![b])));
        } else {
            assert(cur.push(b) =~= s@.subrange(ps as int, i + 1));
            i += 1;
        }
    }
    assert(s@.skip(i as int) =~= Seq::<u8>::empty());
    let ghost before = piece_views(pieces@);
    let ghost cur = s@.subrange(ps as int, i as int);
    if ps < i {
        pieces.push(copy_range(s, ps, i));
        pieces.push(Vec::new());
        assert(piece_views(pieces@) =~= before + seq![cur, Seq::<u8>::empty()]);
    } else {
        pieces.push(Vec::new());
        assert(piece_views(pieces@) =~= before + seq![Seq::<u8>::empty()]);
    }
    pieces
}

/// The pieces of `s` around the matches of `delimiter`; see `split_spec`.
pub fn pico_string_split(s: &str, delimiter: &str) -> (r: Vec<Vec<u8>>)
    ensures
        piece_views(r@) == split_spec(s.spec_bytes(), delimiter.spec_bytes()),
{
    let d = delimiter.as_bytes();
    if d.len() == 0 {
        split_empty(s.as_bytes())
    } else {
        split_nonempty(s.as_bytes(), d)
    }
}

// ── Whitespace and case ────────────────────────────────────────────

/// `c` has the Unicode White_Space property (the list in the Unicode
/// Character Database's PropList.txt), which is what `char::is_whitespace`
/// and so `str::trim` test.
pub open spec fn is_white_space(c: char) -> bool {
    let u = c as u32;
    ||| 0x9 <= u <= 0xd
    ||| u == 0x20
    ||| u == 0x85
    ||| u == 0xa0
    ||| u == 0x1680
    ||| 0x2000 <= u <= 0x200a
    ||| u == 0x2028
    ||| u == 0x2029
    ||| u == 0x202f
    ||| u == 0x205f
    ||| u == 0x3000
}

/// `s` without its leading white space.
pub open spec fn trim_start_spec(s: Seq<char>) -> Seq<char>
    decreases s.len(),
{
    if s.len() > 0 && is_white_space(s[0]) {
        trim_start_spec(s.drop_first())
    } else {
        s
    }
}

/// `s` without its trailing white space.
pub open spec fn trim_end_spec(s: Seq<char>) -> Seq<char>
    decreases s.len(),
{
    if s.len() > 0 && is_white_space(s.last()) {
        trim_end_spec(s.drop_last())
    } else {
        s
    }
}

/// `s` without its leading and trailing white space.
pub open spec fn trim_spec(s: Seq<char>) -> Seq<char> {
    trim_end_spec(trim_start_spec(s))
}

/// What `str::to_lowercase` returns for a string whose characters are `s`.
pub uninterp spec fn lowercased(s: Seq<char>) -> Seq<char>;

/// What `str::to_uppercase` returns for a string whose characters are `s`.
pub uninterp spec fn uppercased(s: Seq<char>) -> Seq<char>;

/// Calls `str::trim`, which removes the leading and trailing characters
/// that have the Unicode White_Space property.
#[verifier::external_body]
fn str_trim(s: &str) -> (r: &str)
    ensures
        r@ == trim_spec(s@),
{
    s.trim()
}

/// Calls `str::to_lowercase`, which maps each character by Unicode's
/// lowercase mapping. The contract names the result only.
#[verifier::external_body]
fn str_to_lowercase(s: &str) -> (r: String)
    ensures
        r@ == lowercased(s@),
{
    s.to_lowercase()
}

/// Calls `str::to_uppercase`, which maps each character by Unicode's
/// uppercase mapping. The contract names the result only.
#[verifier::external_body]
fn str_to_uppercase(s: &str) -> (r: String)
    ensures
        r@ == uppercased(s@),
{
    s.to_uppercase()
}

/// `s` without leading and trailing white space, as UTF-8 bytes.
pub fn pico_string_trim(s: &str) -> (r: Vec<u8>)
    ensures
        r@ == encode_utf8(trim_spec(s@)),
{
    let t = str_trim(s);
    vstd::slice::slice_to_vec(t.as_bytes())
}

/// `s` in lower case, as UTF-8 bytes.
pub fn pico_string_to_lower(s: &str) -> (r: Vec<u8>)
    ensures
        r@ == encode_utf8(lowercased(s@)),
{
    let t = str_to_lowercase(s);
    vstd::slice::slice_to_vec(t.as_str().as_bytes())
}

/// `s` in upper case, as UTF-8 bytes.
pub fn pico_string_to_upper(s: &str) -> (r: Vec<u8>)
    ensures
        r@ == encode_utf8(uppercased(s@)),
{
    let t = str_to_uppercase(s);
    vstd::slice::slice_to_vec(t.as_str().as_bytes())
}

// ── Integer conversion ────────────────────────────────────────────

pub open spec fn is_digit(b: u8) -> bool {
    48 <= b <= 57
}

pub open spec fn all_digits(d: Seq<u8>) -> bool {
    forall|i: int| 0 <= i < d.len() ==> is_digit(#[trigger] d[i])
}

/// The number written by the decimal digits `d`.
pub open spec fn digits_value(d: Seq<u8>) -> nat
    decreases d.len(),
{
    if d.len() == 0 {
        0
    } else {
        digits_value(d.drop_last()) * 10 + (d.last() - 48) as nat
    }
}

/// The `i32` that `b` writes: an optional `+` or `-`, then one or more
/// ASCII digits, with a value in range; `None` for anything else.
pub open spec fn parse_i32_spec(b: Seq<u8>) -> Option<i32> {
    let neg = b.len() > 0 && b[0] == 45;
    let signed = b.len() > 0 && (b[0] == 45 || b[0] == 43);
    let d = if signed { b.drop_first() } else { b };
    if d.len() == 0 || !all_digits(d) {
        None
    } else {
        let v: int = if neg { -(digits_value(d) as int) } else { digits_value(d) as int };
        if i32::MIN <= v <= i32::MAX { Some(v as i32) } else { None }
    }
}

/// The decimal digits of `n`, without leading zeros.
pub open spec fn decimal(n: nat) -> Seq<u8>
    decreases n,
{
    if n < 10 {
        seq![(48 + n) as u8]
    } else {
        decimal(n / 10).push((48 + n % 10) as u8)
    }
}

/// The decimal text of `v`, with a `-` before negative values.
pub open spec fn int_text(v: i32) -> Seq<u8> {
    if v < 0 {
        seq![45u8] + decimal((-v) as nat)
    } else {
        decimal(v as nat)
    }
}

/// A longer run of digits is worth at least as much as its prefix.
proof fn lemma_digits_prefix(d: Seq<u8>, k: int)
    requires
        all_digits(d),
        0 <= k <= d.len(),
    ensures
        digits_value(d) >= digits_value(d.take(k)),
    decreases d.len(),
{
    if k < d.len() {
        assert(all_digits(d.drop_last()));
        lemma_digits_prefix(d.drop_last(), k);
        assert(d.drop_last().take(k) =~= d.take(k));
    } else {
        assert(d.take(k) =~= d);
    }
}

/// Parses `b` as an `i32`; see `parse_i32_spec`.
pub fn parse_i32(b: &[u8]) -> (r: Option<i32>)
    ensures
        r == parse_i32_spec(b@),
{
    let n = b.len();
    let mut start: usize = 0;
    let mut neg = false;
    if n > 0 && b[0] == 45 {
        neg = true;
        start = 1;
    } else if n > 0 && b[0] == 43 {
        start = 1;
    }
    let ghost d = if start == 1 { b@.drop_first() } else { b@ };
    assert(d =~= b@.subrange(start as int, n as int));
    if start == n {
        return None;
    }
    let mut acc: i64 = 0;
    let mut i = start;
    assert(d.take(0) =~= Seq::<u8>::empty());
    while i < n
        invariant
            start <= i <= n,
            n == b@.len(),
            d == b@.subrange(start as int, n as int),
            d == (if start == 1 { b@.drop_first() } else { b@ }),
            start == (if b@.len() > 0 && (b@[0] == 45 || b@[0] == 43) { 1usize } else { 0usize }),
            neg == (b@.len() > 0 && b@[0] == 45),
            all_digits(d.take(i - start)),
            acc == digits_value(d.take(i - start)),
            acc <= 2147483648,
        decreases n - i,
    {
        let c = b[i];
        if c < 48 || c > 57 {
            assert(!is_digit(d[i - start]));
            return None;
        }
        assert(d.take(i - start + 1).drop_last() =~= d.take(i - start));
        acc = acc * 10 + (c - 48) as i64;
        i += 1;
        if acc > 2147483648 {
            proof {
                if all_digits(d) {
                    lemma_digits_prefix(d, i - start);
                }
            }
            return None;
        }
    }
    assert(d.take(n - start) =~= d);
    if neg {
        Some((-acc) as i32)
    } else if acc <= 2147483647 {
        Some(acc as i32)
    } else {
        None
    }
}

/// `s`, trimmed of white space, read as an `i32`; 0 when it is not one.
pub fn pico_string_to_int(s: &str) -> (r: i32)
    ensures
        r == match parse_i32_spec(encode_utf8(trim_spec(s@))) {
            Some(v) => v,
            None => 0,
        },
{
    let t = str_trim(s);
    match parse_i32(t.as_bytes()) {
        Some(v) => v,
        None => 0,
    }
}

fn push_decimal(out: &mut Vec<u8>, n: u32)
    ensures
        final(out)@ == old(out)@ + decimal(n as nat),
    decreases n,
{
    if n >= 10 {
        push_decimal(out, n / 10);
    }
    out.push((48 + n % 10) as u8);
    proof {
        if n >= 10 {
            assert(old(out)@ + decimal(n as nat) =~= old(out)@ + decimal((n / 10) as nat) + seq![(48 + n % 10) as u8]);
        }
    }
    assert(final(out)@ =~= old(out)@ + decimal(n as nat));
}

/// The decimal text of `val`.
pub fn pico_int_to_string(val: i32) -> (r: Vec<u8>)
    ensures
        r@ == int_text(val),
{
    let mut out: Vec<u8> = Vec::new();
    if val < 0 {
        out.push(45);
        let m: u32 = (-(val as i64)) as u32;
        push_decimal(&mut out, m);
    } else {
        push_decimal(&mut out, val as u32);
    }
    assert(out@ =~= int_text(val));
    out
}

// ── Format ─────────────────────────────────────────────────────────

/// The text that fills a placeholder: the argument, `null` for an absent
/// argument, or `{}` itself when the arguments have run out.
pub open spec fn placeholder_text(args: Seq<Option<Seq<u8>>>, k: int) -> Seq<u8> {
    if 0 <= k < args.len() {
        match args[k] {
            Some(a) => a,
            None => seq![110u8, 117u8, 108u8, 108u8],
        }
    } else {
        seq![123u8, 125u8]
    }
}

/// `t` with each `{}`, read left to right, replaced by the text for the
/// next argument, starting with argument `k`.
pub open spec fn format_spec(t: Seq<u8>, args: Seq<Option<Seq<u8>>>, k: int) -> Seq<u8>
    decreases t.len(),
{
    if t.len() == 0 {
        Seq::empty()
    } else if t.len() >= 2 && t[0] == 123 && t[1] == 125 {
        placeholder_text(args, k) + format_spec(t.skip(2), args, k + 1)
    } else {
        seq![t[0]] + format_spec(t.drop_first(), args, k)
    }
}

/// Fills the `{}` placeholders of `template` with `args` in order; see
/// `format_spec`. `args` holds the bytes of each argument string, or
/// `None` for a null argument.
pub fn pico_string_format(template: &str, args: &Vec<Option<Vec<u8>>>) -> (r: Vec<u8>)
    ensures
        r@ == format_spec(template.spec_bytes(), crate::collection::byte_views(args@), 0),
{
    let ghost av = crate::collection::byte_views(args@);
    let t = template.as_bytes();
    let mut out: Vec<u8> = Vec::new();
    let mut i: usize = 0;
    let mut k: usize = 0;
    assert(t@.skip(0) =~= t@);
    while i < t.len()
        invariant
            i <= t@.len(),
            k <= i,
            av == crate::collection::byte_views(args@),
            out@ + format_spec(t@.skip(i as int), av, k as int) == format_spec(t@, av, 0),
        decreases t@.len() - i,
    {
        let ghost rest = t@.skip(i as int);
        if t[i] == 123 && i + 1 < t.len() && t[i + 1] == 125 {
            assert(rest.skip(2) =~= t@.skip(i + 2));
            if k < args.len() {
                match &args[k] {
                    Some(a) => extend_bytes(&mut out, a.as_slice()),
                    None => {
                        out.push(110);
                        out.push(117);
                        out.push(108);
                        out.push(108);
                    },
                }
            } else {
                out.push(123);
                out.push(125);
            }
            let ghost fill = placeholder_text(av, k as int);
            assert(out@ + format_spec(t@.skip(i + 2), av, k + 1) =~= format_spec(t@, av, 0));
            i += 2;
            k += 1;
        } else {
            assert(rest.drop_first() =~= t@.skip(i + 1));
            out.push(t[i]);
            i += 1;
            assert(out@ + format_spec(t@.skip(i as int), av, k as int) =~= format_spec(t@, av, 0));
        }
    }
    assert(t@.skip(i as int) =~= Seq::<u8>::empty());
    assert(out@ =~= format_spec(t@, av, 0));
    out
}

// ── Laws ───────────────────────────────────────────────────────────

/// Joining `seq![a] + p` puts `a` and a separator before the join of `p`.
proof fn lemma_join_cons(a: Seq<u8>, p: Seq<Seq<u8>>, d: Seq<u8>)
    requires
        p.len() > 0,
    ensures
        join_with(seq![a] + p, d) == a + d + join_with(p, d),
    decreases p.len(),
{
    let q = seq![a] + p;
    assert(q.len() == p.len() + 1);
    assert(q.last() == p.last());
    if p.len() == 1 {
        assert(q.drop_last() =~= seq![a]);
        assert(join_with(seq![a], d) == a);
        assert(join_with(q, d) == a + d + p.last());
        assert(join_with(p, d) == p[0]);
    } else {
        assert(q.drop_last() =~= seq![a] + p.drop_last());
        lemma_join_cons(a, p.drop_last(), d);
        assert(join_with(q, d) == join_with(q.drop_last(), d) + d + q.last());
        assert(join_with(p, d) == join_with(p.drop_last(), d) + d + p.last());
        assert(join_with(q, d) =~= a + d + join_with(p, d));
    }
}

proof fn lemma_split_pieces_len(s: Seq<u8>, d: Seq<u8>, cur: Seq<u8>)
    ensures
        split_pieces(s, d, cur).len() > 0,
    decreases s.len(),
{
    if d.len() == 0 || s.len() < d.len() {
    } else if s.take(d.len() as int) == d {
        lemma_split_pieces_len(s.skip(d.len() as int), d, Seq::empty());
    } else {
        lemma_split_pieces_len(s.drop_first(), d, cur.push(s[0]));
    }
}

proof fn lemma_split_chars_len(s: Seq<u8>, cur: Seq<u8>)
    ensures
        split_chars(s, cur).len() > 0,
    decreases s.len(),
{
    if s.len() == 0 {
    } else if !is_continuation_byte(s[0]) && cur.len() > 0 {
        lemma_split_chars_len(s.drop_first(), seq![s[0]]);
    } else {
        lemma_split_chars_len(s.drop_first(), cur.push(s[0]));
    }
}

proof fn lemma_join_split_pieces(s: Seq<u8>, d: Seq<u8>, cur: Seq<u8>)
    requires
        d.len() > 0,
    ensures
        join_with(split_pieces(s, d, cur), d) == cur + s,
    decreases s.len(),
{
    if s.len() < d.len() {
    } else if s.take(d.len() as int) == d {
        let rest = s.skip(d.len() as int);
        lemma_split_pieces_len(rest, d, Seq::empty());
        lemma_join_cons(cur, split_pieces(rest, d, Seq::empty()), d);
        lemma_join_split_pieces(rest, d, Seq::empty());
        assert(s =~= s.take(d.len() as int) + rest);
        assert(cur + d + (Seq::<u8>::empty() + rest) =~= cur + s);
    } else {
        lemma_join_split_pieces(s.drop_first(), d, cur.push(s[0]));
        assert(cur.push(s[0]) + s.drop_first() =~= cur + s);
    }
}

proof fn lemma_join_split_chars(s: Seq<u8>, cur: Seq<u8>)
    ensures
        join_with(split_chars(s, cur), Seq::empty()) == cur + s,
    decreases s.len(),
{
    let e = Seq::<u8>::empty();
    if s.len() == 0 {
        if cur.len() == 0 {
            assert(split_chars(s, cur) == seq![e]);
            assert(join_with(seq![e], e) == e);
            assert(cur + s =~= e);
        } else {
            let p = seq![cur, e];
            assert(split_chars(s, cur) == p);
            assert(p.drop_last() =~= seq![cur]);
            assert(join_with(p, e) == join_with(p.drop_last(), e) + e + p.last());
            assert(cur + e + e =~= cur + s);
        }
    } else if !is_continuation_byte(s[0]) && cur.len() > 0 {
        let rest = s.drop_first();
        lemma_split_chars_len(rest, seq![s[0]]);
        lemma_join_cons(cur, split_chars(rest, seq![s[0]]), e);
        lemma_join_split_chars(rest, seq![s[0]]);
        assert(cur + e + (seq![s[0]] + rest) =~= cur + s);
    } else {
        lemma_join_split_chars(s.drop_first(), cur.push(s[0]));
        assert(cur.push(s[0]) + s.drop_first() =~= cur + s);
    }
}

/// Splitting a string and joining the pieces with the same delimiter gives
/// the string back, for every delimiter, empty or not.
pub proof fn law_join_split(s: Seq<u8>, d: Seq<u8>)
    ensures
        join_with(split_spec(s, d), d) == s,
{
    let e = Seq::<u8>::empty();
    if d.len() == 0 {
        lemma_split_chars_len(s, e);
        lemma_join_cons(e, split_chars(s, e), d);
        lemma_join_split_chars(s, e);
        assert(d =~= e);
        assert(e + e + (e + s) =~= s);
    } else {
        lemma_join_split_pieces(s, d, e);
        assert(e + s =~= s);
    }
}

proof fn lemma_replace_same(s: Seq<u8>, x: Seq<u8>)
    requires
        x.len() > 0,
    ensures
        replace_occurrences(s, x, x) == s,
    decreases s.len(),
{
    if s.len() < x.len() {
    } else if s.take(x.len() as int) == x {
        lemma_replace_same(s.skip(x.len() as int), x);
        assert(s =~= s.take(x.len() as int) + s.skip(x.len() as int));
    } else {
        lemma_replace_same(s.drop_first(), x);
        assert(s =~= seq![s[0]] + s.drop_first());
    }
}

proof fn lemma_insert_nothing(s: Seq<u8>)
    ensures
        insert_between_chars(s, Seq::empty()) == s,
    decreases s.len(),
{
    if s.len() > 0 {
        lemma_insert_nothing(s.drop_first());
        assert(s =~= seq![s[0]] + s.drop_first());
        assert(Seq::<u8>::empty() + seq![s[0]] + s.drop_first() =~= s);
    }
}

/// Replacing a string by itself changes nothing.
pub proof fn law_replace_same(s: Seq<u8>, x: Seq<u8>)
    ensures
        replace_spec(s, x, x) == s,
{
    if x.len() == 0 {
        lemma_insert_nothing(s);
        assert(x =~= Seq::<u8>::empty());
    } else {
        lemma_replace_same(s, x);
    }
}

proof fn lemma_decimal(n: nat)
    ensures
        decimal(n).len() > 0,
        all_digits(decimal(n)),
        digits_value(decimal(n)) == n,
    decreases n,
{
    let d = decimal(n);
    if n >= 10 {
        lemma_decimal(n / 10);
        assert(d.drop_last() =~= decimal(n / 10));
        assert(d.last() == (48 + n % 10) as u8);
        assert(((48 + n % 10) as u8 - 48) as nat == n % 10);
        assert(digits_value(d) == digits_value(decimal(n / 10)) * 10 + n % 10);
        assert((n / 10) * 10 + n % 10 == n);
        assert(all_digits(d)) by {
            assert forall|i: int| 0 <= i < d.len() implies is_digit(#[trigger] d[i]) by {
                if i < d.len() - 1 {
                    assert(d[i] == decimal(n / 10)[i]);
                }
            }
        }
    } else {
        assert(d.drop_last() =~= Seq::<u8>::empty());
        assert(d.last() == (48 + n) as u8);
        assert(digits_value(d) == digits_value(d.drop_last()) * 10 + (d.last() - 48) as nat);
    }
}

/// Reading back the decimal text of an integer gives the integer: the
/// text that `pico_int_to_string` writes is the text `pico_string_to_int`
/// reads once white space is trimmed.
pub proof fn law_int_text_roundtrip(v: i32)
    ensures
        parse_i32_spec(int_text(v)) == Some(v),
{
    if v < 0 {
        let m = (-v) as nat;
        lemma_decimal(m);
        let b = int_text(v);
        assert(b.drop_first() =~= decimal(m));
    } else {
        lemma_decimal(v as nat);
        let d = decimal(v as nat);
        assert(is_digit(d[0]));
    }
}

/// The characters of the decimal text of `v`.
pub open spec fn int_text_chars(v: i32) -> Seq<char> {
    Seq::new(int_text(v).len(), |i: int| int_text(v)[i] as char)
}

/// The text of an integer is a sign or digit, then digits.
proof fn lemma_int_text_shape(v: i32)
    ensures
        int_text(v).len() > 0,
        forall|i: int| 0 <= i < int_text(v).len() ==> #[trigger] int_text(v)[i] == 45 || is_digit(int_text(v)[i]),
        is_digit(int_text(v).last()),
{
    if v < 0 {
        lemma_decimal((-v) as nat);
        let d = decimal((-v) as nat);
        let b = int_text(v);
        assert forall|i: int| 0 <= i < b.len() implies #[trigger] b[i] == 45 || is_digit(b[i]) by {
            if i > 0 {
                assert(b[i] == d[i - 1]);
            }
        }
        assert(b.last() == d.last());
    } else {
        lemma_decimal(v as nat);
    }
}

/// Reading back the decimal text of an integer as a string gives the
/// integer: for the string `t` whose UTF-8 bytes are what
/// `pico_int_to_string` writes, `pico_string_to_int` gives back `v`.
pub proof fn law_to_int_of_int_text(v: i32, t: Seq<char>)
    requires
        encode_utf8(t) == int_text(v),
    ensures
        parse_i32_spec(encode_utf8(trim_spec(t))) == Some(v),
{
    let b = int_text(v);
    let a = int_text_chars(v);
    lemma_int_text_shape(v);
    assert(is_ascii_chars(a)) by {
        assert forall|i: int| 0 <= i < a.len() implies '\0' <= #[trigger] a[i] <= '\u{7f}' by {
            assert(b[i] == 45 || is_digit(b[i]));
        }
    }
    vstd::utf8::is_ascii_chars_encode_utf8(a);
    assert(encode_utf8(a) =~= b);
    vstd::utf8::encode_utf8_decode_utf8(a);
    vstd::utf8::encode_utf8_decode_utf8(t);
    assert(t == a);
    assert(!is_white_space(a[0])) by {
        assert(b[0] == 45 || is_digit(b[0]));
    }
    assert(trim_start_spec(a) == a);
    assert(!is_white_space(a.last())) by {
        assert(is_digit(b.last()));
        assert(a.last() == b[b.len() - 1] as char);
    }
    assert(trim_end_spec(a) == a);
    law_int_text_roundtrip(v);
}

proof fn lemma_first_match(h: Seq<u8>, n: Seq<u8>, from: int, w: int)
    requires
        from <= w,
        matches_at(h, n, w),
    ensures
        exists|i: int| is_first_match_from(h, n, from, i),
    decreases w - from,
{
    if exists|j: int| from <= j < w && matches_at(h, n, j) {
        let j = choose|j: int| from <= j < w && matches_at(h, n, j);
        lemma_first_match(h, n, from, j);
    } else {
        assert(is_first_match_from(h, n, from, w));
    }
}

/// In a non-empty string, `needle` is contained exactly when searching from
/// the start finds a first occurrence: `pico_string_contains` holds exactly
/// when `pico_string_index_of` from offset 0 is not -1.
pub proof fn law_contains_iff_found(h: Seq<u8>, n: Seq<u8>)
    requires
        h.len() > 0,
    ensures
        occurs_in(h, n) <==> exists|i: int| is_first_match_from(h, n, clamp_start(0), i),
{
    assert(clamp_start(0) == 0);
    if occurs_in(h, n) {
        let w = choose|w: int| matches_at(h, n, w);
        lemma_first_match(h, n, 0, w);
    }
    if exists|i: int| is_first_match_from(h, n, 0, i) {
        let i = choose|i: int| is_first_match_from(h, n, 0, i);
        assert(matches_at(h, n, i));
    }
}

/// A substring from 0 with a negative length is the whole string.
pub proof fn law_substring_whole(s: Seq<u8>, length: i32)
    requires
        length < 0,
    ensures
        substring_spec(s, 0, length) == s,
{
    if s.len() > 0 {
        assert(s.subrange(0, s.len() as int) =~= s);
    }
}

/// A substring that lies inside the string is exactly the bytes from
/// `start`, `length` of them: in particular a range that stops before the
/// end is not taken to the end.
pub proof fn law_substring_range(s: Seq<u8>, start: i32, length: i32)
    requires
        0 <= start,
        0 <= length,
        start + length <= s.len(),
    ensures
        substring_spec(s, start, length) == s.subrange(start as int, start + length),
        substring_spec(s, start, length).len() == length,
{
    if start as int >= s.len() {
        assert(s.subrange(start as int, start + length) =~= Seq::<u8>::empty());
    }
}

proof fn lemma_replace_join_split(s: Seq<u8>, x: Seq<u8>, y: Seq<u8>, cur: Seq<u8>)
    requires
        x.len() > 0,
    ensures
        join_with(split_pieces(s, x, cur), y) == cur + replace_occurrences(s, x, y),
    decreases s.len(),
{
    if s.len() < x.len() {
    } else if s.take(x.len() as int) == x {
        let rest = s.skip(x.len() as int);
        lemma_split_pieces_len(rest, x, Seq::empty());
        lemma_join_cons(cur, split_pieces(rest, x, Seq::empty()), y);
        lemma_replace_join_split(rest, x, y, Seq::empty());
        assert(cur + y + (Seq::<u8>::empty() + replace_occurrences(rest, x, y))
            =~= cur + (y + replace_occurrences(rest, x, y)));
    } else {
        lemma_replace_join_split(s.drop_first(), x, y, cur.push(s[0]));
        assert(cur.push(s[0]) + replace_occurrences(s.drop_first(), x, y)
            =~= cur + (seq![s[0]] + replace_occurrences(s.drop_first(), x, y)));
    }
}

proof fn lemma_insert_join_split_chars(s: Seq<u8>, y: Seq<u8>, cur: Seq<u8>)
    requires
        cur.len() > 0,
    ensures
        join_with(split_chars(s, cur), y) == cur + insert_between_chars(s, y),
    decreases s.len(),
{
    let e = Seq::<u8>::empty();
    if s.len() == 0 {
        let p = seq![cur, e];
        assert(split_chars(s, cur) == p);
        assert(p.drop_last() =~= seq![cur]);
        assert(join_with(p, y) == join_with(p.drop_last(), y) + y + p.last());
        assert(cur + y + e =~= cur + y);
    } else if !is_continuation_byte(s[0]) {
        let rest = s.drop_first();
        lemma_split_chars_len(rest, seq![s[0]]);
        lemma_join_cons(cur, split_chars(rest, seq![s[0]]), y);
        lemma_insert_join_split_chars(rest, y, seq![s[0]]);
        assert(cur + y + (seq![s[0]] + insert_between_chars(rest, y))
            =~= cur + (y + seq![s[0]] + insert_between_chars(rest, y)));
    } else {
        lemma_insert_join_split_chars(s.drop_first(), y, cur.push(s[0]));
        assert(cur.push(s[0]) + insert_between_chars(s.drop_first(), y)
            =~= cur + (seq![s[0]] + insert_between_chars(s.drop_first(), y)));
    }
}

/// Replacing `x` by `y` puts one copy of `y` in place of every match that
/// splitting on `x` cuts at: the result is the pieces of `split(s, x)`
/// joined with `y`, whatever the lengths of `x` and `y`. For an empty `x`
/// (matching before and after every character) this holds of every string
/// that does not begin inside a character, as every UTF-8 string does.
pub proof fn law_replace_is_split_then_join(s: Seq<u8>, x: Seq<u8>, y: Seq<u8>)
    requires
        x.len() == 0 && s.len() > 0 ==> !is_continuation_byte(s[0]),
    ensures
        replace_spec(s, x, y) == join_with(split_spec(s, x), y),
{
    let e = Seq::<u8>::empty();
    if x.len() > 0 {
        lemma_replace_join_split(s, x, y, e);
        assert(e + replace_occurrences(s, x, y) =~= replace_occurrences(s, x, y));
    } else {
        lemma_split_chars_len(s, e);
        lemma_join_cons(e, split_chars(s, e), y);
        if s.len() == 0 {
            assert(split_chars(s, e) == seq![e]);
            assert(join_with(seq![e], y) == e);
            assert(e + y + e =~= y);
        } else {
            let rest = s.drop_first();
            assert(split_chars(s, e) == split_chars(rest, e.push(s[0])));
            assert(e.push(s[0]) == seq![s[0]]);
            lemma_insert_join_split_chars(rest, y, seq![s[0]]);
            assert(e + y + (seq![s[0]] + insert_between_chars(rest, y))
                =~= y + seq![s[0]] + insert_between_chars(rest, y));
        }
    }
}

proof fn lemma_split_pieces_free(s: Seq<u8>, d: Seq<u8>, cur: Seq<u8>)
    requires
        d.len() > 0,
        forall|j: int| 0 <= j < cur.len() ==> !matches_at(cur + s, d, j),
    ensures
        forall|i: int| 0 <= i < split_pieces(s, d, cur).len() ==> !occurs_in(#[trigger] split_pieces(s, d, cur)[i], d),
    decreases s.len(),
{
    let p = split_pieces(s, d, cur);
    if s.len() < d.len() {
        assert forall|i: int| 0 <= i < p.len() implies !occurs_in(#[trigger] p[i], d) by {
            if occurs_in(p[i], d) {
                let j = choose|j: int| matches_at(p[i], d, j);
                assert(p[i] == cur + s);
                assert(j < cur.len());
            }
        }
    } else if s.take(d.len() as int) == d {
        let rest = s.skip(d.len() as int);
        assert forall|j: int| 0 <= j < Seq::<u8>::empty().len() implies !matches_at(Seq::<u8>::empty() + rest, d, j) by {}
        lemma_split_pieces_free(rest, d, Seq::empty());
        let q = split_pieces(rest, d, Seq::empty());
        assert(p == seq![cur] + q);
        assert(p.len() == q.len() + 1);
        assert forall|i: int| 0 <= i < p.len() implies !occurs_in(#[trigger] p[i], d) by {
            if i == 0 {
                if occurs_in(cur, d) {
                    let j = choose|j: int| matches_at(cur, d, j);
                    assert((cur + s).subrange(j, j + d.len()) =~= cur.subrange(j, j + d.len()));
                    assert(matches_at(cur + s, d, j));
                }
            } else {
                assert(p[i] == q[i - 1]);
            }
        }
    } else {
        let c2 = cur.push(s[0]);
        let s2 = s.drop_first();
        assert(c2 + s2 =~= cur + s);
        assert forall|j: int| 0 <= j < c2.len() implies !matches_at(c2 + s2, d, j) by {
            if j == cur.len() {
                assert((cur + s).subrange(j, j + d.len()) =~= s.take(d.len() as int));
            }
        }
        lemma_split_pieces_free(s2, d, c2);
        assert(p == split_pieces(s2, d, c2));
    }
}

/// Splitting on a non-empty delimiter cuts at every occurrence: no piece
/// holds the delimiter (and joining the pieces with it gives the string
/// back, `law_join_split`).
pub proof fn law_split_pieces_hold_no_delimiter(s: Seq<u8>, d: Seq<u8>)
    requires
        d.len() > 0,
    ensures
        forall|i: int| 0 <= i < split_spec(s, d).len() ==> !occurs_in(#[trigger] split_spec(s, d)[i], d),
{
    lemma_split_pieces_free(s, d, Seq::empty());
}

/// A placeholder filled by a present argument becomes exactly that
/// argument's bytes, the empty string included; only an absent argument
/// reads `null`.
pub proof fn law_format_fills_placeholder(a: Seq<u8>)
    ensures
        format_spec(seq![123u8, 125u8], seq![Some(a)], 0) == a,
        format_spec(seq![123u8, 125u8], seq![None::<Seq<u8>>], 0) == seq![110u8, 117u8, 108u8, 108u8],
{
    let t = seq![123u8, 125u8];
    let e = Seq::<u8>::empty();
    assert(t.len() == 2 && t[0] == 123 && t[1] == 125);
    assert(t.skip(2) =~= e);
    let some_args = seq![Some(a)];
    let none_args = seq![None::<Seq<u8>>];
    assert(format_spec(e, some_args, 1) == e);
    assert(format_spec(e, none_args, 1) == e);
    assert(placeholder_text(some_args, 0) == a);
    assert(format_spec(t, some_args, 0) == placeholder_text(some_args, 0) + format_spec(t.skip(2), some_args, 1));
    assert(format_spec(t, none_args, 0) == placeholder_text(none_args, 0) + format_spec(t.skip(2), none_args, 1));
    assert(a + e =~= a);
    assert(seq![110u8, 117u8, 108u8, 108u8] + e =~= seq![110u8, 117u8, 108u8, 108u8]);
}

/// A template without `{` is given back unchanged, whatever the arguments.
pub proof fn law_format_plain_text(t: Seq<u8>, args: Seq<Option<Seq<u8>>>, k: int)
    requires
        forall|i: int| 0 <= i < t.len() ==> t[i] != 123,
    ensures
        format_spec(t, args, k) == t,
    decreases t.len(),
{
    if t.len() > 0 {
        assert(t[0] != 123);
        law_format_plain_text(t.drop_first(), args, k);
        assert(seq![t[0]] + t.drop_first() =~= t);
    }
}

/// Text before a placeholder is kept and the placeholder takes the next
/// argument: for a brace-free `p`, formatting `p` then `{}` then `q` gives
/// `p`, the argument's bytes, then `q` formatted with the arguments after it.
pub proof fn law_format_prefix_then_placeholder(p: Seq<u8>, q: Seq<u8>, args: Seq<Option<Seq<u8>>>, k: int)
    requires
        forall|i: int| 0 <= i < p.len() ==> p[i] != 123,
        0 <= k < args.len(),
        args[k] is Some,
    ensures
        format_spec(p + seq![123u8, 125u8] + q, args, k) == p + args[k]->0 + format_spec(q, args, k + 1),
    decreases p.len(),
{
    let t = p + seq![123u8, 125u8] + q;
    if p.len() == 0 {
        assert(t =~= seq![123u8, 125u8] + q);
        assert(t.skip(2) =~= q);
        assert(p + args[k]->0 + format_spec(q, args, k + 1) =~= args[k]->0 + format_spec(q, args, k + 1));
    } else {
        assert(t[0] == p[0]);
        assert(t.drop_first() =~= p.drop_first() + seq![123u8, 125u8] + q);
        law_format_prefix_then_placeholder(p.drop_first(), q, args, k);
        assert(seq![p[0]] + (p.drop_first() + args[k]->0 + format_spec(q, args, k + 1))
            =~= p + args[k]->0 + format_spec(q, args, k + 1));
    }
}

proof fn lemma_trim_start(s: Seq<char>) -> (i: int)
    ensures
        0 <= i <= s.len(),
        trim_start_spec(s) == s.subrange(i, s.len() as int),
        forall|k: int| 0 <= k < i ==> is_white_space(#[trigger] s[k]),
        i < s.len() ==> !is_white_space(s[i]),
    decreases s.len(),
{
    if s.len() > 0 && is_white_space(s[0]) {
        let i0 = lemma_trim_start(s.drop_first());
        assert(s.drop_first().subrange(i0, s.drop_first().len() as int) =~= s.subrange(i0 + 1, s.len() as int));
        assert forall|k: int| 0 <= k < i0 + 1 implies is_white_space(#[trigger] s[k]) by {
            if k > 0 {
                assert(s[k] == s.drop_first()[k - 1]);
            }
        }
        i0 + 1
    } else {
        assert(s.subrange(0, s.len() as int) =~= s);
        0
    }
}

proof fn lemma_trim_end(s: Seq<char>) -> (j: int)
    ensures
        0 <= j <= s.len(),
        trim_end_spec(s) == s.subrange(0, j),
        forall|k: int| j <= k < s.len() ==> is_white_space(#[trigger] s[k]),
        j > 0 ==> !is_white_space(s[j - 1]),
    decreases s.len(),
{
    if s.len() > 0 && is_white_space(s.last()) {
        let j0 = lemma_trim_end(s.drop_last());
        assert(s.drop_last().subrange(0, j0) =~= s.subrange(0, j0));
        assert forall|k: int| j0 <= k < s.len() implies is_white_space(#[trigger] s[k]) by {
            if k < s.len() - 1 {
                assert(s[k] == s.drop_last()[k]);
            }
        }
        j0
    } else {
        assert(s.subrange(0, s.len() as int) =~= s);
        s.len() as int
    }
}

/// Trimming takes off white space and only white space, from both ends:
/// the result is a contiguous part of `s`, everything before and after it
/// is white space, and it neither begins nor ends with white space.
pub proof fn law_trim_strips_white_space(s: Seq<char>)
    ensures
        exists|i: int, j: int| {
            &&& 0 <= i <= j <= s.len()
            &&& trim_spec(s) == s.subrange(i, j)
            &&& forall|k: int| 0 <= k < i ==> is_white_space(#[trigger] s[k])
            &&& forall|k: int| j <= k < s.len() ==> is_white_space(#[trigger] s[k])
        },
        trim_spec(s).len() > 0 ==> !is_white_space(trim_spec(s)[0]) && !is_white_space(trim_spec(s).last()),
{
    let i = lemma_trim_start(s);
    let t = s.subrange(i, s.len() as int);
    let j = lemma_trim_end(t);
    let r = trim_spec(s);
    assert(r == t.subrange(0, j));
    assert(r =~= s.subrange(i, i + j));
    assert forall|k: int| i + j <= k < s.len() implies is_white_space(#[trigger] s[k]) by {
        assert(s[k] == t[k - i]);
    }
    if r.len() > 0 {
        assert(r[0] == s[i]);
        assert(r.last() == t[j - 1]);
    }
    assert(0 <= i <= i + j <= s.len());
}

} // verus!
