use vstd::prelude::*;
use vstd::string::StringSliceAdditionalSpecFns;
use vstd::utf8::{is_char_boundary, decode_utf8};
use crate::bytes::copy_range;
use crate::collection::byte_views;
use crate::compiled_regex::{regex_new, regex_find, regex_captures, is_range_of};
pub use crate::compiled_regex::{CompiledRegex, regex_compiles, regex_first_match, regex_first_captures};

verus! {

/// Compiles `pattern`; `None` when the regex crate refuses it.
pub fn pico_regex_compile(pattern: &str) -> (r: Option<CompiledRegex>)
    ensures
        r is Some <==> regex_compiles(pattern@),
        r matches Some(c) ==> c@ == pattern@,
{
    regex_new(pattern)
}

/// The characters of `subject` from byte `start` on.
pub open spec fn tail_chars(subject: Seq<u8>, start: int) -> Seq<char> {
    decode_utf8(subject.subrange(start, subject.len() as int))
}

/// The matching starts at a character boundary whenever it starts inside
/// the subject.
pub open spec fn offset_on_boundary(subject: Seq<u8>, offset: i64) -> bool {
    let start: int = if offset < 0 { 0 } else { offset as int };
    start < subject.len() ==> is_char_boundary(subject, start)
}

/// The start of the search in the subject: a negative offset counts as 0.
pub open spec fn search_start(offset: i64) -> int {
    if offset < 0 { 0 } else { offset as int }
}

/// Length of a match that begins at the start of the haystack, -1 when the
/// first match begins later or there is none.
pub open spec fn anchored_len_spec(found: Option<(usize, usize)>) -> i64 {
    match found {
        Some(m) => if m.0 == 0 { m.1 as i64 } else { -1i64 },
        None => -1i64,
    }
}

/// The text of the first match in `hay` when it begins at the start of
/// `hay`.
pub open spec fn anchored_text_spec(hay: Seq<u8>, found: Option<(usize, usize)>) -> Option<Seq<u8>> {
    match found {
        Some(m) => if m.0 == 0 { Some(hay.subrange(0, m.1 as int)) } else { None },
        None => None,
    }
}

/// The texts of the capture groups, when the first match begins at the
/// start of `hay`: `None` when the match begins later or there is none.
pub open spec fn anchored_groups_spec(hay: Seq<u8>, caps: Option<Seq<Option<(usize, usize)>>>) -> Option<Seq<Option<Seq<u8>>>> {
    match caps {
        Some(g) => if g.len() > 0 && g[0] is Some && (g[0]->0).0 != 0 {
            None
        } else {
            Some(g.map_values(|o: Option<(usize, usize)>| match o {
                Some(m) => Some(hay.subrange(m.0 as int, m.1 as int)),
                None => None,
            }))
        },
        None => None,
    }
}

/// What matching the regex of `pattern` against `subject` from `offset`
/// gives: the length of a match that begins exactly at the offset, -1 when
/// the offset is past the end or the first match from there begins later
/// or is missing. At the end of the subject the empty rest is matched.
pub open spec fn exec_len_spec(pattern: Seq<char>, subject: Seq<u8>, offset: i64) -> i64 {
    let start = search_start(offset);
    if start > subject.len() {
        -1i64
    } else {
        anchored_len_spec(regex_first_match(pattern, tail_chars(subject, start)))
    }
}

/// The text of the match that `exec_len_spec` measures.
pub open spec fn exec_text_spec(pattern: Seq<char>, subject: Seq<u8>, offset: i64) -> Option<Seq<u8>> {
    let start = search_start(offset);
    if start > subject.len() {
        None
    } else {
        anchored_text_spec(subject.subrange(start, subject.len() as int), regex_first_match(pattern, tail_chars(subject, start)))
    }
}

/// The texts of the capture groups of the match that `exec_len_spec`
/// measures.
pub open spec fn exec_groups_spec(pattern: Seq<char>, subject: Seq<u8>, offset: i64) -> Option<Seq<Option<Seq<u8>>>> {
    let start = search_start(offset);
    if start > subject.len() {
        None
    } else {
        anchored_groups_spec(subject.subrange(start, subject.len() as int), regex_first_captures(pattern, tail_chars(subject, start)))
    }
}

/// The first match from the offset lies in the rest of the subject.
pub open spec fn match_in_rest(pattern: Seq<char>, subject: Seq<u8>, offset: i64) -> bool {
    let start = search_start(offset);
    start <= subject.len() ==> (regex_first_match(pattern, tail_chars(subject, start)) matches Some(m)
        ==> m.0 <= m.1 <= subject.len() - start)
}

/// Given where the first match lies, its length when it begins at the
/// start of the haystack, else -1.
pub fn anchored_match_len(found: Option<(usize, usize)>) -> (r: i64)
    ensures
        r == anchored_len_spec(found),
{
    match found {
        Some((s, e)) => if s == 0 { (e - s) as i64 } else { -1 },
        None => -1,
    }
}

/// The haystack from byte `start` of `subject` on.
fn subject_tail(subject: &str, start: usize) -> (r: &str)
    requires
        start <= subject.spec_bytes().len(),
        start < subject.spec_bytes().len() ==> is_char_boundary(subject.spec_bytes(), start as int),
    ensures
        r@ == tail_chars(subject.spec_bytes(), start as int),
        r.spec_bytes() == subject.spec_bytes().subrange(start as int, subject.spec_bytes().len() as int),
{
    proof {
        vstd::utf8::encode_utf8_valid_utf8(subject@);
        vstd::utf8::is_char_boundary_start_end_of_seq(subject.spec_bytes());
    }
    let (_, tail) = subject.split_at(start);
    proof {
        vstd::utf8::encode_utf8_decode_utf8(tail@);
    }
    tail
}

/// The start of the search as a byte index, `None` when it is past the end
/// of a subject of `n` bytes.
fn start_in(n: usize, offset: i64) -> (r: Option<usize>)
    ensures
        match r {
            Some(i) => i == search_start(offset) && i <= n,
            None => search_start(offset) > n,
        },
{
    let start: u64 = if offset < 0 { 0 } else { offset as u64 };
    if start > n as u64 {
        None
    } else {
        Some(start as usize)
    }
}

/// Matches the compiled regex against `subject` from byte `offset` (a
/// negative offset counts as 0) and returns the length of a match that
/// begins exactly there, or -1; see `exec_len_spec`.
pub fn pico_regex_exec(c: &CompiledRegex, subject: &str, offset: i64) -> (r: i64)
    requires
        offset_on_boundary(subject.spec_bytes(), offset),
    ensures
        r == exec_len_spec(c@, subject.spec_bytes(), offset),
        match_in_rest(c@, subject.spec_bytes(), offset),
        subject.spec_bytes().len() <= i64::MAX ==>
            (r == -1 || 0 <= r <= subject.spec_bytes().len() - search_start(offset)),
{
    let start = match start_in(subject.as_bytes().len(), offset) {
        Some(i) => i,
        None => return -1,
    };
    let hay = subject_tail(subject, start);
    anchored_match_len(regex_find(c, hay))
}

/// Given where the first match lies in `hay`, its text when it begins at the
/// start of `hay`.
pub fn anchored_match_text(hay: &[u8], found: Option<(usize, usize)>) -> (r: Option<Vec<u8>>)
    requires
        found matches Some(m) ==> m.0 <= m.1 <= hay@.len(),
    ensures
        match found {
            Some(m) => if m.0 == 0 { r matches Some(v) && v@ == hay@.subrange(0, m.1 as int) } else { r is None },
            None => r is None,
        },
{
    match found {
        Some((s, e)) => if s == 0 { Some(copy_range(hay, 0, e)) } else { None },
        None => None,
    }
}

/// The byte contents of an optional byte vector.
pub open spec fn opt_bytes(r: Option<Vec<u8>>) -> Option<Seq<u8>> {
    match r {
        Some(v) => Some(v@),
        None => None,
    }
}

/// Matches the compiled regex against `subject` from byte `offset` and
/// returns the text of a match that begins exactly there; see
/// `exec_text_spec`. The text is the bytes of `subject` right at the
/// offset.
pub fn pico_regex_exec_str(c: &CompiledRegex, subject: &str, offset: i64) -> (r: Option<Vec<u8>>)
    requires
        offset_on_boundary(subject.spec_bytes(), offset),
    ensures
        opt_bytes(r) == exec_text_spec(c@, subject.spec_bytes(), offset),
        match_in_rest(c@, subject.spec_bytes(), offset),
        r matches Some(t) ==> search_start(offset) + t@.len() <= subject.spec_bytes().len()
            && t@ == subject.spec_bytes().subrange(search_start(offset), search_start(offset) + t@.len()),
{
    let start = match start_in(subject.as_bytes().len(), offset) {
        Some(i) => i,
        None => return None,
    };
    let hay = subject_tail(subject, start);
    let found = regex_find(c, hay);
    let r = anchored_match_text(hay.as_bytes(), found);
    assert(opt_bytes(r) == anchored_text_spec(hay.spec_bytes(), found));
    proof {
        if r is Some {
            let t = r->0@;
            assert(t =~= subject.spec_bytes().subrange(start as int, start + t.len()));
        }
    }
    r
}

/// The byte contents of an optional list of optional byte vectors.
pub open spec fn opt_groups(r: Option<Vec<Option<Vec<u8>>>>) -> Option<Seq<Option<Seq<u8>>>> {
    match r {
        Some(v) => Some(byte_views(v@)),
        None => None,
    }
}

/// The ranges of each present group lie in `hay`.
pub open spec fn groups_in(hay: Seq<u8>, g: Seq<Option<(usize, usize)>>) -> bool {
    forall|i: int| 0 <= i < g.len() && g[i] is Some ==> (#[trigger] g[i]->0).0 <= (g[i]->0).1 <= hay.len()
}

/// Given the capture groups of the first match in `hay`, their texts when
/// the match begins at the start of `hay`.
pub fn anchored_groups(hay: &[u8], caps: Option<Vec<Option<(usize, usize)>>>) -> (r: Option<Vec<Option<Vec<u8>>>>)
    requires
        caps matches Some(g) ==> groups_in(hay@, g@),
    ensures
        opt_groups(r) == anchored_groups_spec(hay@, match caps { Some(g) => Some(g@), None => None }),
{
    match caps {
        None => None,
        Some(g) => {
            if g.len() > 0 {
                match g[0] {
                    Some((s, _)) => if s != 0 {
                        return None;
                    },
                    None => {},
                }
            }
            let ghost gv = g@;
            let ghost want = gv.map_values(|o: Option<(usize, usize)>| match o {
                Some(m) => Some(hay@.subrange(m.0 as int, m.1 as int)),
                None => None,
            });
            let mut out: Vec<Option<Vec<u8>>> = Vec::new();
            let mut i: usize = 0;
            while i < g.len()
                invariant
                    i <= gv.len(),
                    gv == g@,
                    groups_in(hay@, gv),
                    want == gv.map_values(|o: Option<(usize, usize)>| match o {
                        Some(m) => Some(hay@.subrange(m.0 as int, m.1 as int)),
                        None => None,
                    }),
                    byte_views(out@) == want.take(i as int),
                decreases gv.len() - i,
            {
                let ghost before = byte_views(out@);
                match g[i] {
                    Some((s, e)) => {
                        assert(gv[i as int] is Some);
                        out.push(Some(copy_range(hay, s, e)));
                    },
                    None => out.push(None),
                }
                assert(byte_views(out@) =~= before.push(want[i as int]));
                assert(want.take(i + 1) =~= want.take(i as int).push(want[i as int]));
                i += 1;
            }
            assert(want.take(gv.len() as int) =~= want);
            Some(out)
        },
    }
}

/// Matches the compiled regex against `subject` from byte `offset` and
/// returns the texts of the capture groups (group 0 is the whole match;
/// `None` for a group that took no part) of a match that begins exactly
/// there; see `exec_groups_spec`. There are groups exactly when
/// `pico_regex_exec_str` finds a text, and group 0 is that text.
pub fn pico_regex_exec_groups(c: &CompiledRegex, subject: &str, offset: i64) -> (r: Option<Vec<Option<Vec<u8>>>>)
    requires
        offset_on_boundary(subject.spec_bytes(), offset),
    ensures
        opt_groups(r) == exec_groups_spec(c@, subject.spec_bytes(), offset),
        r is Some <==> exec_text_spec(c@, subject.spec_bytes(), offset) is Some,
        r matches Some(g) ==> g@.len() > 0 && byte_views(g@)[0] == exec_text_spec(c@, subject.spec_bytes(), offset),
{
    let start = match start_in(subject.as_bytes().len(), offset) {
        Some(i) => i,
        None => return None,
    };
    let hay = subject_tail(subject, start);
    let caps = regex_captures(c, hay);
    proof {
        if caps is Some {
            let g = caps->0@;
            assert forall|i: int| 0 <= i < g.len() && g[i] is Some implies (#[trigger] g[i]->0).0 <= (g[i]->0).1 <= hay.spec_bytes().len() by {
                assert(is_range_of(hay.spec_bytes(), g[i]->0));
            }
        }
    }
    let r = anchored_groups(hay.as_bytes(), caps);
    proof {
        if caps is Some {
            let g = caps->0@;
            let m = g[0]->0;
            assert(is_range_of(hay.spec_bytes(), m));
            assert(g[0] == regex_first_match(c@, hay@));
            assert(hay@ == tail_chars(subject.spec_bytes(), search_start(offset)));
            assert(hay.spec_bytes() == subject.spec_bytes().subrange(search_start(offset), subject.spec_bytes().len() as int));
            if r is Some {
                assert(m.0 == 0);
                let mapped = g.map_values(|o: Option<(usize, usize)>| match o {
                    Some(m) => Some(hay.spec_bytes().subrange(m.0 as int, m.1 as int)),
                    None => None,
                });
                assert(mapped[0] == Some(hay.spec_bytes().subrange(0, m.1 as int)));
                assert(byte_views(r->0@) == mapped);
                assert(byte_views(r->0@)[0] == exec_text_spec(c@, subject.spec_bytes(), offset));
                assert(byte_views(r->0@).len() == r->0@.len());
                assert(r->0@.len() > 0);
            }
        }
    }
    r
}

/// The regex compiled from `pattern` matched as by `pico_regex_exec`; -1
/// when the pattern does not compile.
pub fn pico_regex_match(pattern: &str, subject: &str, offset: i64) -> (r: i64)
    requires
        offset_on_boundary(subject.spec_bytes(), offset),
    ensures
        r == (if regex_compiles(pattern@) { exec_len_spec(pattern@, subject.spec_bytes(), offset) } else { -1i64 }),
{
    match pico_regex_compile(pattern) {
        Some(c) => pico_regex_exec(&c, subject, offset),
        None => -1,
    }
}

/// The regex compiled from `pattern` matched as by `pico_regex_exec_str`;
/// `None` when the pattern does not compile.
pub fn pico_regex_match_str(pattern: &str, subject: &str, offset: i64) -> (r: Option<Vec<u8>>)
    requires
        offset_on_boundary(subject.spec_bytes(), offset),
    ensures
        opt_bytes(r) == (if regex_compiles(pattern@) { exec_text_spec(pattern@, subject.spec_bytes(), offset) } else { None }),
{
    match pico_regex_compile(pattern) {
        Some(c) => pico_regex_exec_str(&c, subject, offset),
        None => None,
    }
}

/// The regex compiled from `pattern` matched as by
/// `pico_regex_exec_groups`; `None` when the pattern does not compile.
pub fn pico_regex_match_groups(pattern: &str, subject: &str, offset: i64) -> (r: Option<Vec<Option<Vec<u8>>>>)
    requires
        offset_on_boundary(subject.spec_bytes(), offset),
    ensures
        opt_groups(r) == (if regex_compiles(pattern@) { exec_groups_spec(pattern@, subject.spec_bytes(), offset) } else { None }),
{
    match pico_regex_compile(pattern) {
        Some(c) => pico_regex_exec_groups(&c, subject, offset),
        None => None,
    }
}

/// The length and the text of a match agree: there is a text exactly when
/// the length is not -1, and the text is that many bytes of the subject
/// from the offset.
pub proof fn law_text_and_length_agree(pattern: Seq<char>, subject: Seq<u8>, offset: i64)
    requires
        match_in_rest(pattern, subject, offset),
        subject.len() <= i64::MAX,
    ensures
        exec_text_spec(pattern, subject, offset) is None <==> exec_len_spec(pattern, subject, offset) == -1,
        exec_text_spec(pattern, subject, offset) matches Some(t) ==> {
            &&& t.len() == exec_len_spec(pattern, subject, offset)
            &&& t == subject.subrange(search_start(offset), search_start(offset) + t.len())
        },
{
    let start = search_start(offset);
    if start <= subject.len() {
        let rest = subject.subrange(start, subject.len() as int);
        let f = regex_first_match(pattern, tail_chars(subject, start));
        if f is Some && (f->0).0 == 0 {
            let t = rest.subrange(0, (f->0).1 as int);
            assert(t =~= subject.subrange(start, start + t.len()));
        }
    }
}

} // verus!
