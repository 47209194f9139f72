//! Names for what has none yet.

use vstd::prelude::*;

verus! {

/// Whether the character is a hexadecimal digit in lower case.
pub open spec fn is_hex_digit(c: char) -> bool {
    '0' <= c <= '9' || 'a' <= c <= 'f'
}

/// Whether the text is a random UUID as it is printed: 32 hexadecimal digits in
/// five groups of 8, 4, 4, 4 and 12 with hyphens between them, the digit `4` for
/// the version and one of `8`, `9`, `a` and `b` for the variant.
pub open spec fn is_uuid(s: Seq<char>) -> bool {
    &&& s.len() == 36
    &&& s[8] == '-' && s[13] == '-' && s[18] == '-' && s[23] == '-'
    &&& forall|i: int|
        0 <= i < 36 && i != 8 && i != 13 && i != 18 && i != 23 ==> is_hex_digit(#[trigger] s[i])
    &&& s[14] == '4'
    &&& s[19] == '8' || s[19] == '9' || s[19] == 'a' || s[19] == 'b'
}

/// `uuid::Uuid::new_v4`, printed. Which UUID it is depends on chance; its form
/// does not.
#[verifier::external_body]
pub(crate) fn fresh_id() -> (r: String)
    ensures
        is_uuid(r@),
{
    uuid::Uuid::new_v4().to_string()
}

/// Whether each of the texts is a random UUID.
pub open spec fn all_uuids(v: Seq<Seq<char>>) -> bool {
    forall|i: int| 0 <= i < v.len() ==> is_uuid(#[trigger] v[i])
}

/// So many names for what has none yet.
pub fn fresh_ids(n: usize) -> (r: Vec<String>)
    ensures
        r@.len() == n,
        all_uuids(crate::text::texts(r@)),
{
    let mut out: Vec<String> = Vec::new();
    let mut i: usize = 0;
    while i < n
        invariant
            i <= n,
            out@.len() == i,
            all_uuids(crate::text::texts(out@)),
        decreases n - i,
    {
        let id = fresh_id();
        proof {
            crate::text::lemma_texts_push(out@, id);
        }
        out.push(id);
        i = i + 1;
    }
    out
}

} // verus!
