//! Character classes and string building shared by the expression parsers.
use vstd::prelude::*;

verus! {

/// ASCII whitespace as Rust's `char::is_ascii_whitespace` defines it:
/// space, horizontal tab, line feed, form feed and carriage return.
pub open spec fn ascii_whitespace(c: char) -> bool {
    c == ' ' || c == '\t' || c == '\n' || c == '\x0C' || c == '\r'
}

/// An ASCII digit or an ASCII letter.
pub open spec fn ascii_alphanumeric(c: char) -> bool {
    ('0' <= c && c <= '9') || ('a' <= c && c <= 'z') || ('A' <= c && c <= 'Z')
}

/// The characters of `s` that are not ASCII whitespace, in order.
pub open spec fn without_whitespace(s: Seq<char>) -> Seq<char> {
    s.filter(|c: char| !ascii_whitespace(c))
}

pub fn is_ascii_whitespace(c: char) -> (b: bool)
    ensures
        b == ascii_whitespace(c),
{
    c == ' ' || c == '\t' || c == '\n' || c == '\x0C' || c == '\r'
}

pub fn is_ascii_alphanumeric(c: char) -> (b: bool)
    ensures
        b == ascii_alphanumeric(c),
{
    ('0' <= c && c <= '9') || ('a' <= c && c <= 'z') || ('A' <= c && c <= 'Z')
}

/// Appends `c` to `s`, by `String::push`.
#[verifier::external_body]
pub fn push_char(s: &mut String, c: char)
    ensures
        final(s)@ == old(s)@.push(c),
{
    s.push(c);
}

/// Splitting off the last character of a prefix of `s` extends the
/// whitespace-free prefix by that character when it is not whitespace.
pub proof fn lemma_without_whitespace_step(s: Seq<char>, i: int)
    requires
        0 <= i < s.len(),
    ensures
        without_whitespace(s.take(i + 1)) == if ascii_whitespace(s[i]) {
            without_whitespace(s.take(i))
        } else {
            without_whitespace(s.take(i)).push(s[i])
        },
{
    reveal_with_fuel(Seq::<_>::filter, 1);
    assert(s.take(i + 1).drop_last() =~= s.take(i));
}

/// Without whitespace to drop, nothing is dropped.
pub proof fn lemma_no_whitespace(s: Seq<char>)
    requires
        forall|i: int| 0 <= i < s.len() ==> !ascii_whitespace(#[trigger] s[i]),
    ensures
        without_whitespace(s) == s,
    decreases s.len(),
{
    reveal_with_fuel(Seq::<_>::filter, 1);
    if s.len() > 0 {
        let p = s.drop_last();
        assert forall|i: int| 0 <= i < p.len() implies !ascii_whitespace(#[trigger] p[i]) by {
            assert(p[i] == s[i]);
        }
        lemma_no_whitespace(p);
        assert(s.drop_last().push(s.last()) =~= s);
    }
}

} // verus!
