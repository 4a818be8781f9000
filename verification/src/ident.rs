//! Fresh identifiers for nodes, content, policies and moderation actions.

use vstd::prelude::*;

verus! {

/// A lowercase hexadecimal digit.
pub open spec fn is_lower_hex(c: char) -> bool {
    ('0' <= c && c <= '9') || ('a' <= c && c <= 'f')
}

/// The shape of a hyphenated UUID string: 36 characters, hyphens at positions
/// 8, 13, 18 and 23, lowercase hexadecimal digits elsewhere.
pub open spec fn is_uuid_string(s: Seq<char>) -> bool {
    &&& s.len() == 36
    &&& forall|i: int|
        0 <= i < 36 ==> if i == 8 || i == 13 || i == 18 || i == 23 {
            #[trigger] s[i] == '-'
        } else {
            is_lower_hex(s[i])
        }
}

/// Calls `uuid::Uuid::new_v4` and formats it with `to_string`. The contract claims
/// only the shape of the hyphenated lowercase form that the crate's `Display`
/// writes; the value itself is random and nothing is stated of it.
#[verifier::external_body]
pub(crate) fn fresh_uuid() -> (s: String)
    ensures
        is_uuid_string(s@),
{
    uuid::Uuid::new_v4().to_string()
}

} // verus!
