//! Identifiers of rows.
use vstd::prelude::*;

verus! {

/// Whether a character is a hexadecimal digit in lower case.
pub open spec fn is_hex_digit(c: char) -> bool {
    '0' <= c <= '9' || 'a' <= c <= 'f'
}

/// Whether a text is a random UUID: hexadecimal digits in groups of eight, four,
/// four, four and twelve, with hyphens between, where the third group starts
/// with the version 4.
pub open spec fn is_id(s: Seq<char>) -> bool {
    &&& s.len() == 36
    &&& s[14] == '4'
    &&& forall|i: int|
        0 <= i < 36 ==> if i == 8 || i == 13 || i == 18 || i == 23 {
            #[trigger] s[i] == '-'
        } else {
            is_hex_digit(s[i])
        }
}

/// `Uuid::new_v4` and its `to_string`: a random UUID in its hyphenated form.
/// Which one it is, is left to chance.
#[verifier::external_body]
fn random_uuid() -> (id: String)
    ensures
        is_id(id@),
{
    uuid::Uuid::new_v4().to_string()
}

/// An identifier for a new row.
pub fn new_id() -> (id: String)
    ensures
        is_id(id@),
{
    random_uuid()
}

} // verus!
