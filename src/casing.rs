use vstd::prelude::*;
use vstd::string::StrSliceExecFns;
use vstd::string::StringExecFns;

verus! {

/// What `char::to_uppercase` yields for a character.
pub uninterp spec fn upper_of(c: char) -> Seq<char>;

/// An ASCII lowercase letter.
pub open spec fn is_ascii_lower(c: char) -> bool {
    'a' <= c <= 'z'
}

/// Every character of `s` is ASCII.
pub open spec fn all_ascii(s: Seq<char>) -> bool {
    forall|i: int| 0 <= i < s.len() ==> (#[trigger] s[i] as u32) < 128
}

/// The uppercase form of a character: for ASCII, a to z move to A to Z and
/// the rest stays; beyond ASCII, what `char::to_uppercase` yields.
pub open spec fn upper_char(c: char) -> Seq<char> {
    if is_ascii_lower(c) {
        seq![((c as u8) - 32u8) as char]
    } else if (c as u32) < 128 {
        seq![c]
    } else {
        upper_of(c)
    }
}

/// `s` with its first character replaced by its uppercase form.
pub open spec fn upper_first_of(s: Seq<char>) -> Seq<char> {
    if s.len() == 0 {
        s
    } else {
        upper_char(s[0]) + s.drop_first()
    }
}

/// Relies on `char::to_uppercase`: for ASCII the letters a to z move to A to Z
/// and every other ASCII character stays; beyond ASCII its result is named.
#[verifier::external_body]
fn char_to_upper(c: char) -> (r: String)
    ensures
        r@ == upper_char(c),
        (c as u32) >= 128 ==> r@ == upper_of(c),
{
    c.to_uppercase().collect::<String>()
}

/// Returns `s` with its first character (a Unicode scalar) in uppercase; the
/// empty string stays empty.
pub fn upper_first(s: &str) -> (r: String)
    ensures
        r@ == upper_first_of(s@),
{
    let n = s.unicode_len();
    if n == 0 {
        return String::new();
    }
    let first = s.get_char(0);
    let rest = s.substring_char(1, n);
    let head = char_to_upper(first);
    let r = head.concat(rest);
    assert(r@ =~= upper_first_of(s@));
    r
}

/// Uppercasing the first character leaves an ASCII string whose first
/// character is not a lowercase letter unchanged; in particular the empty
/// string stays empty.
pub proof fn lemma_upper_first_keeps_capitalized(s: Seq<char>)
    requires
        all_ascii(s),
        s.len() > 0 ==> !is_ascii_lower(s[0]),
    ensures
        upper_first_of(s) == s,
{
    if s.len() > 0 {
        assert((s[0] as u32) < 128);
        assert(upper_first_of(s) =~= s);
    }
}

/// Uppercasing the first character of an ASCII string twice gives the same
/// string as doing it once.
pub proof fn lemma_upper_first_idempotent(s: Seq<char>)
    requires
        all_ascii(s),
    ensures
        upper_first_of(upper_first_of(s)) == upper_first_of(s),
{
    if s.len() > 0 {
        assert((s[0] as u32) < 128);
        let t = upper_first_of(s);
        if is_ascii_lower(s[0]) {
            assert(t[0] == ((s[0] as u8) - 32u8) as char);
            assert(upper_char(t[0]) == seq![t[0]]);
            assert(upper_first_of(t) =~= t);
        } else {
            assert(t =~= s);
        }
    }
}

/// A single character becomes exactly its uppercase form.
pub proof fn lemma_upper_first_single(c: char)
    ensures
        upper_first_of(seq![c]) == upper_char(c),
{
    assert(upper_first_of(seq![c]) =~= upper_char(c));
}

} // verus!
