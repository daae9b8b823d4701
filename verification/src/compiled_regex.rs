use vstd::prelude::*;
use vstd::string::StringSliceAdditionalSpecFns;
use vstd::utf8::is_char_boundary;

verus! {

#[verifier::external_type_specification]
#[verifier::external_body]
pub struct ExRegex(::regex::Regex);

/// Whether `regex::Regex::new` accepts the pattern `pattern`.
pub uninterp spec fn regex_compiles(pattern: Seq<char>) -> bool;

/// Byte range of the first match that `Regex::find` reports for the regex
/// compiled from `pattern` on `haystack`.
pub uninterp spec fn regex_first_match(pattern: Seq<char>, haystack: Seq<char>) -> Option<(usize, usize)>;

/// Byte ranges of the capture groups (group 0 first) that
/// `Regex::captures` reports for the regex compiled from `pattern` on
/// `haystack`.
pub uninterp spec fn regex_first_captures(pattern: Seq<char>, haystack: Seq<char>) -> Option<Seq<Option<(usize, usize)>>>;

/// A compiled regex, with the pattern it was compiled from.
pub struct CompiledRegex {
    re: ::regex::Regex,
    pattern: String,
}

impl CompiledRegex {
    /// The pattern of a compiled regex is one that `Regex::new` accepts. The
    /// regex itself is opaque; it is always the one compiled from the
    /// pattern, since `regex_new` below is the only constructor and no code
    /// outside this module can reach the fields.
    #[verifier::type_invariant]
    closed spec fn inv(self) -> bool {
        regex_compiles(self.pattern@)
    }
}

impl View for CompiledRegex {
    /// The pattern the regex was compiled from.
    type V = Seq<char>;

    closed spec fn view(&self) -> Seq<char> {
        self.pattern@
    }
}

/// A byte range `(start, end)` of `hay` that falls on character boundaries.
pub open spec fn is_range_of(hay: Seq<u8>, r: (usize, usize)) -> bool {
    &&& r.0 <= r.1 <= hay.len()
    &&& is_char_boundary(hay, r.0 as int)
    &&& is_char_boundary(hay, r.1 as int)
}

/// Calls `regex::Regex::new` and pairs the regex it compiles with the
/// pattern it was compiled from. Success depends on the pattern alone; the
/// contract names it and does not state the regex syntax.
#[verifier::external_body]
pub(crate) fn regex_new(pattern: &str) -> (r: Option<CompiledRegex>)
    ensures
        r is Some <==> regex_compiles(pattern@),
        r matches Some(c) ==> c@ == pattern@,
{
    match ::regex::Regex::new(pattern) {
        Ok(re) => Some(CompiledRegex { re, pattern: pattern.to_owned() }),
        Err(_) => None,
    }
}

/// Calls `regex::Regex::find` on the regex of `c` and hands back the byte
/// range of the match (`Match::start`, `Match::end`). The regex of a
/// `CompiledRegex` is always the one compiled from its pattern, so the
/// result is named over the pattern. The crate documents that
/// `start <= end` and that both fall on character boundaries; which match
/// is found is not stated.
#[verifier::external_body]
pub(crate) fn regex_find(c: &CompiledRegex, haystack: &str) -> (r: Option<(usize, usize)>)
    ensures
        r == regex_first_match(c@, haystack@),
        r matches Some(m) ==> is_range_of(haystack.spec_bytes(), m),
{
    match c.re.find(haystack) {
        Some(m) => Some((m.start(), m.end())),
        None => None,
    }
}

/// Calls `regex::Regex::captures` on the regex of `c` and hands back, for
/// each group (`Captures::len` of them, read with `Captures::get`), its
/// byte range or `None` when it did not take part. The crate documents that
/// `captures`, like `find`, searches for the first match and that group 0
/// is that whole match (so it is present, and captures are found exactly
/// when `find` finds a match), that there is at least one group, and that
/// every range is ordered and on character boundaries; which match is
/// found is not stated.
#[verifier::external_body]
pub(crate) fn regex_captures(c: &CompiledRegex, haystack: &str) -> (r: Option<Vec<Option<(usize, usize)>>>)
    ensures
        r matches Some(g) ==> regex_first_captures(c@, haystack@) == Some(g@),
        r is None ==> regex_first_captures(c@, haystack@) is None,
        r is None <==> regex_first_match(c@, haystack@) is None,
        r matches Some(g) ==> g@.len() > 0 && g@[0] == regex_first_match(c@, haystack@),
        r matches Some(g) ==> forall|i: int| 0 <= i < g@.len() && g@[i] is Some ==> is_range_of(haystack.spec_bytes(), #[trigger] g@[i]->0),
{
    match c.re.captures(haystack) {
        Some(caps) => {
            let mut groups = Vec::new();
            for i in 0..caps.len() {
                match caps.get(i) {
                    Some(m) => groups.push(Some((m.start(), m.end()))),
                    None => groups.push(None),
                }
            }
            Some(groups)
        },
        None => None,
    }
}

} // verus!
