//! Small text helpers: the segment kind tags and owned copies of string literals
//! whose content the contracts can speak of.
use vstd::prelude::*;

verus! {

/// The kind tag of a literal path segment.
pub open spec fn literal_tag() -> Seq<char> {
    seq!['l', 'i', 't', 'e', 'r', 'a', 'l']
}

/// The kind tag of a named parameter segment.
pub open spec fn parameter_tag() -> Seq<char> {
    seq!['p', 'a', 'r', 'a', 'm', 'e', 't', 'e', 'r']
}

/// The kind tag of a wildcard segment.
pub open spec fn wildcard_tag() -> Seq<char> {
    seq!['w', 'i', 'l', 'd', 'c', 'a', 'r', 'd']
}

/// An owned `"literal"`.
pub(crate) fn literal_text() -> (s: String)
    ensures
        s@ == literal_tag(),
{
    let s = "literal".to_owned();
    proof {
        reveal_strlit("literal");
        assert(s@ =~= literal_tag());
    }
    s
}

/// An owned `"parameter"`.
pub(crate) fn parameter_text() -> (s: String)
    ensures
        s@ == parameter_tag(),
{
    let s = "parameter".to_owned();
    proof {
        reveal_strlit("parameter");
        assert(s@ =~= parameter_tag());
    }
    s
}

/// An owned `"wildcard"`.
pub(crate) fn wildcard_text() -> (s: String)
    ensures
        s@ == wildcard_tag(),
{
    let s = "wildcard".to_owned();
    proof {
        reveal_strlit("wildcard");
        assert(s@ =~= wildcard_tag());
    }
    s
}

/// Appends a single character given as a one-character literal.
pub(crate) fn append_slash(s: &mut String)
    ensures
        final(s)@ == old(s)@ + seq!['/'],
{
    proof {
        reveal_strlit("/");
    }
    s.append("/");
    assert(s@ =~= old(s)@ + seq!['/']);
}

} // verus!
