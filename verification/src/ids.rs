//! Fresh identifiers for meetings, transcripts and tags: a prefix followed by
//! a random version 4 UUID.

use vstd::prelude::*;
use vstd::string::StringExecFns;

verus! {

/// `c` is a lowercase hexadecimal digit.
pub open spec fn is_lower_hex(c: char) -> bool {
    ('0' <= c && c <= '9') || ('a' <= c && c <= 'f')
}

/// `u` is the hyphenated lowercase text of a version 4 UUID:
/// `xxxxxxxx-xxxx-4xxx-yxxx-xxxxxxxxxxxx` with `y` one of `8`, `9`, `a`, `b`.
pub open spec fn is_uuid_v4_text(u: Seq<char>) -> bool {
    &&& u.len() == 36
    &&& forall|i: int|
        0 <= i < 36 ==> if i == 8 || i == 13 || i == 18 || i == 23 {
            u[i] == '-'
        } else {
            is_lower_hex(#[trigger] u[i])
        }
    &&& u[14] == '4'
    &&& (u[19] == '8' || u[19] == '9' || u[19] == 'a' || u[19] == 'b')
}

/// `id` is `prefix` followed by the text of a version 4 UUID.
pub open spec fn is_prefixed_id(id: Seq<char>, prefix: Seq<char>) -> bool {
    &&& id.len() == prefix.len() + 36
    &&& id.subrange(0, prefix.len() as int) == prefix
    &&& is_uuid_v4_text(id.subrange(prefix.len() as int, id.len() as int))
}

/// Calls `uuid::Uuid::new_v4` and formats the UUID with `to_string`. The
/// contract states what the crate's source shows of every outcome: the
/// hyphenated lowercase form of a random UUID whose version bits say 4 and
/// whose variant bits say RFC 4122. Which UUID comes out is left open.
#[verifier::external_body]
fn random_uuid_v4() -> (u: String)
    ensures
        is_uuid_v4_text(u@),
{
    uuid::Uuid::new_v4().to_string()
}

/// A fresh identifier: `prefix` followed by a random UUID.
pub fn new_id(prefix: &str) -> (id: String)
    ensures
        is_prefixed_id(id@, prefix@),
{
    let uuid = random_uuid_v4();
    let mut id = String::new();
    id.append(prefix);
    id.append(uuid.as_str());
    proof {
        assert(id@.subrange(0, prefix@.len() as int) =~= prefix@);
        assert(id@.subrange(prefix@.len() as int, id@.len() as int) =~= uuid@);
    }
    id
}

} // verus!
