//! A field is one typed value within a row: a field type together with the
//! value's raw bytes.

use vstd::prelude::*;

verus! {

/// The type of a column, and of every field stored under that column.
#[derive(Clone, Copy, PartialEq, Eq, Structural, Debug)]
pub enum FieldType {
    String,
    Integer,
}

/// Mathematical model of a `Field`: its type and its bytes.
pub struct FieldV {
    pub field_type: FieldType,
    pub data: Seq<u8>,
}

/// One typed value within a row.
#[derive(Debug)]
pub struct Field {
    pub field_type: FieldType,
    pub data: Vec<u8>,
}

impl View for Field {
    type V = FieldV;

    open spec fn view(&self) -> FieldV {
        FieldV { field_type: self.field_type, data: self.data@ }
    }
}

impl DeepView for Field {
    type V = FieldV;

    open spec fn deep_view(&self) -> FieldV {
        self@
    }
}

impl Clone for Field {
    fn clone(&self) -> (r: Self)
        ensures
            r@ == self@,
    {
        let data = self.data.clone();
        proof {
            assert(data@ =~= self.data@);
        }
        Field { field_type: self.field_type, data }
    }
}

/// The field type that a metadata type name denotes, if any.
pub open spec fn field_type_of_name(s: Seq<char>) -> Option<FieldType> {
    if s == "String"@ {
        Some(FieldType::String)
    } else if s == "Integer"@ {
        Some(FieldType::Integer)
    } else {
        None
    }
}

/// The metadata type name of a field type.
pub open spec fn name_of_field_type(t: FieldType) -> Seq<char> {
    match t {
        FieldType::String => "String"@,
        FieldType::Integer => "Integer"@,
    }
}

impl FieldType {
    /// Parses a metadata type name: exactly `String` or `Integer`.
    pub fn from_str(input: &str) -> (r: Result<FieldType, ()>)
        ensures
            r matches Ok(t) ==> field_type_of_name(input@) == Some(t),
            r is Err ==> field_type_of_name(input@) is None,
    {
        if crate::strutil::str_eq(input, "String") {
            Ok(FieldType::String)
        } else if crate::strutil::str_eq(input, "Integer") {
            Ok(FieldType::Integer)
        } else {
            Err(())
        }
    }

    /// The metadata type name of this field type, as written on page 0.
    pub fn name(&self) -> (r: &'static str)
        ensures
            r@ == name_of_field_type(*self),
    {
        match self {
            FieldType::String => "String",
            FieldType::Integer => "Integer",
        }
    }
}

impl Field {
    pub fn new(field_type: FieldType, data: Vec<u8>) -> (f: Field)
        ensures
            f.field_type == field_type,
            f.data == data,
    {
        Field { field_type, data }
    }
}

/// The bytes rendered as a comma-separated decimal list.
pub open spec fn bytes_list_chars(b: Seq<u8>) -> Seq<char>
    decreases b.len(),
{
    if b.len() == 0 {
        Seq::empty()
    } else if b.len() == 1 {
        crate::strutil::dec_chars(b[0] as nat)
    } else {
        bytes_list_chars(b.drop_last()) + ", "@ + crate::strutil::dec_chars(b.last() as nat)
    }
}

/// The bytes rendered the way a byte-sequence debug listing reads:
/// bracketed, comma-separated decimals.
pub open spec fn bytes_debug_chars(b: Seq<u8>) -> Seq<char> {
    "["@ + bytes_list_chars(b) + "]"@
}

/// How a field displays: a `String` field with valid UTF-8 bytes as that
/// text, any other field as a debug byte listing.
pub open spec fn field_display(f: FieldV) -> Seq<char> {
    if f.field_type == FieldType::String && vstd::utf8::valid_utf8(f.data) {
        vstd::utf8::decode_utf8(f.data)
    } else {
        bytes_debug_chars(f.data)
    }
}

/// Relies on std's `str::from_utf8`: `Ok` exactly when the bytes are valid
/// UTF-8, in which case the returned text is their decoding.
#[verifier::external_body]
fn utf8_to_string(v: &Vec<u8>) -> (r: Option<String>)
    ensures
        r matches Some(s) ==> vstd::utf8::valid_utf8(v@) && s@ == vstd::utf8::decode_utf8(v@),
        r is None ==> !vstd::utf8::valid_utf8(v@),
{
    match core::str::from_utf8(v.as_slice()) {
        Ok(s) => Some(s.to_string()),
        Err(_) => None,
    }
}

/// Renders bytes as a bracketed decimal list.
fn bytes_debug(b: &Vec<u8>) -> (r: String)
    ensures
        r@ == bytes_debug_chars(b@),
{
    proof {
        reveal_strlit("[");
        reveal_strlit("]");
        reveal_strlit(", ");
    }
    let mut r = "[".to_owned();
    let n = b.len();
    let mut i: usize = 0;
    proof {
        assert(b@.subrange(0, 0) =~= Seq::<u8>::empty());
        assert(r@ =~= "["@ + bytes_list_chars(b@.subrange(0, 0)));
    }
    while i < n
        invariant
            i <= n,
            n == b@.len(),
            r@ == "["@ + bytes_list_chars(b@.subrange(0, i as int)),
        decreases n - i,
    {
        let ghost pre = b@.subrange(0, i as int);
        let ghost ext = b@.subrange(0, i + 1);
        if i > 0 {
            r.append(", ");
        }
        let digits = crate::strutil::u128_to_string(b[i] as u128);
        r.append(digits.as_str());
        proof {
            reveal_strlit(", ");
            assert(ext.drop_last() =~= pre);
            assert(ext.last() == b@[i as int]);
            if i == 0 {
                assert(ext.len() == 1);
                assert(bytes_list_chars(ext) == crate::strutil::dec_chars(b@[0] as nat));
                assert("["@ + Seq::<char>::empty() + crate::strutil::dec_chars(b@[0] as nat)
                    =~= "["@ + crate::strutil::dec_chars(b@[0] as nat));
            } else {
                assert(bytes_list_chars(ext) == bytes_list_chars(pre) + ", "@
                    + crate::strutil::dec_chars(b@[i as int] as nat));
                assert(("["@ + bytes_list_chars(pre)) + ", "@ + crate::strutil::dec_chars(
                    b@[i as int] as nat,
                ) =~= "["@ + (bytes_list_chars(pre) + ", "@ + crate::strutil::dec_chars(
                    b@[i as int] as nat,
                )));
            }
        }
        i = i + 1;
    }
    r.append("]");
    proof {
        assert(b@.subrange(0, n as int) =~= b@);
    }
    r
}

impl Field {
    /// How the field displays: a `String` field with valid UTF-8 bytes as
    /// that text, any other field as a debug byte listing.
    pub fn display_string(&self) -> (r: String)
        ensures
            r@ == field_display(self@),
    {
        if self.field_type == FieldType::String {
            match utf8_to_string(&self.data) {
                Some(s) => {
                    return s;
                },
                None => {},
            }
        }
        bytes_debug(&self.data)
    }
}

} // verus!
