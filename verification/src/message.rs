//! The unit of exchange: an ordered list of binary-safe fields.

use vstd::prelude::*;

verus! {

/// One request or one response. The fields are arbitrary byte strings and
/// their order matters; the codec gives no meaning to their number or
/// content.
#[derive(Clone, Debug, PartialEq, Eq)]
pub struct Message {
    pub fields: Vec<Vec<u8>>,
}

/// The byte strings that a list of field buffers holds.
pub open spec fn field_views(fields: Seq<Vec<u8>>) -> Seq<Seq<u8>> {
    fields.map_values(|field: Vec<u8>| field@)
}

impl View for Message {
    type V = Seq<Seq<u8>>;

    /// A message is its fields, each as a sequence of bytes.
    open spec fn view(&self) -> Seq<Seq<u8>> {
        field_views(self.fields@)
    }
}

/// Appending a field buffer appends its bytes to the model.
pub proof fn lemma_field_views_push(fields: Seq<Vec<u8>>, field: Vec<u8>)
    ensures
        field_views(fields.push(field)) == field_views(fields).push(field@),
{
    assert(field_views(fields.push(field)) =~= field_views(fields).push(field@));
}

} // verus!
