//! A row is an ordered sequence of fields plus a globally unique
//! identifier, generated when the row is created and stable afterwards.

use vstd::prelude::*;
use crate::fields::Field;
use crate::fields::FieldV;

verus! {

/// Mathematical model of a `Row`.
pub struct RowV {
    pub id: Seq<char>,
    pub fields: Seq<FieldV>,
}

#[derive(Debug)]
pub struct Row {
    pub id: String,
    pub fields: Vec<Field>,
}

impl View for Row {
    type V = RowV;

    open spec fn view(&self) -> RowV {
        RowV { id: self.id@, fields: self.fields.deep_view() }
    }
}

impl DeepView for Row {
    type V = RowV;

    open spec fn deep_view(&self) -> RowV {
        self@
    }
}

impl Clone for Row {
    fn clone(&self) -> (r: Self)
        ensures
            r@ == self@,
    {
        let mut fields: Vec<Field> = Vec::new();
        let n = self.fields.len();
        let mut i: usize = 0;
        while i < n
            invariant
                i <= n,
                n == self.fields.len(),
                fields.deep_view() =~= self.fields.deep_view().subrange(0, i as int),
            decreases n - i,
        {
            let ghost old_fields = fields.deep_view();
            fields.push(self.fields[i].clone());
            proof {
                assert(fields.deep_view() =~= old_fields.push(self.fields@[i as int]@));
                assert(old_fields.push(self.fields@[i as int]@) =~= self.fields.deep_view()
                    .subrange(0, i + 1));
            }
            i = i + 1;
        }
        proof {
            assert(self.fields.deep_view().subrange(0, n as int) =~= self.fields.deep_view());
        }
        Row { id: self.id.clone(), fields }
    }
}

/// Relies on `uuid::Uuid::new_v4` and its `Display` form: the hyphenated
/// lowercase rendering of a UUID is always 36 characters. Nothing else is
/// assumed of the freshly drawn identifier.
#[verifier::external_body]
fn fresh_row_id() -> (r: String)
    ensures
        r@.len() == 36,
{
    uuid::Uuid::new_v4().to_string()
}

impl Row {
    /// Wraps the fields in a new row under a freshly generated identifier.
    pub fn new(fields: Vec<Field>) -> (r: Row)
        ensures
            r@.fields == fields.deep_view(),
            r.fields == fields,
            r@.id.len() == 36,
    {
        Row { id: fresh_row_id(), fields }
    }
}

} // verus!
