use vstd::prelude::*;

verus! {

/// What `str::to_lowercase` makes of a sequence of characters.
pub uninterp spec fn lower_of(s: Seq<char>) -> Seq<char>;

/// The characters of `s`, in order.
pub(crate) fn chars_of(s: &str) -> (r: Vec<char>)
    ensures
        r@ == s@,
{
    broadcast use vstd::string::axiom_spec_iter;
    let mut v: Vec<char> = Vec::new();
    for c in it: s.chars()
        invariant
            it.seq() == s@,
            v@.len() == it.index(),
            forall|i: int| 0 <= i < v@.len() ==> v@[i] == it.seq()[i],
    {
        v.push(c);
    }
    assert(v@ =~= s@);
    v
}

/// Relies on `String: FromIterator<char>`: the string of the characters of `v`.
#[verifier::external_body]
pub(crate) fn string_of(v: &Vec<char>) -> (r: String)
    ensures
        r@ == v@,
{
    v.iter().collect()
}

/// ASCII, but no capital letter.
pub open spec fn is_lower_ascii(c: char) -> bool {
    (c as u32) < 128 && !('A' <= c && c <= 'Z')
}

/// Relies on `str::to_lowercase`: the result depends on the characters alone;
/// each character is mapped on its own, so a first character that has no
/// case (a digit or `-`) stays first; ASCII text without capitals is left
/// as it is; an empty string stays empty.
#[verifier::external_body]
pub(crate) fn lowercase(s: &str) -> (r: String)
    ensures
        r@ == lower_of(s@),
        s@.len() == 0 ==> r@.len() == 0,
        s@.len() > 0 && (s@[0] == '-' || ('0' <= s@[0] && s@[0] <= '9')) ==> r@.len() > 0
            && r@[0] == s@[0],
        (forall|i: int| 0 <= i < s@.len() ==> is_lower_ascii(#[trigger] s@[i])) ==> r@ == s@,
{
    s.to_lowercase()
}

} // verus!
