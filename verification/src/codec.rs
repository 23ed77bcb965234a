//! Row/field codec: a row is stored as one text line, its field byte
//! values hex-encoded and joined with commas. Decoding is the exact
//! inverse on well-formed lines, proved below.

use vstd::prelude::*;
use vstd::string::StrSliceExecFns;
use crate::strutil::join_commas;
use crate::strutil::split_commas;
use crate::strutil::no_comma;
use crate::strutil::split_line;
use crate::strutil::join_line;
use crate::strutil::lemma_split_join;
use crate::strutil::lemma_join_split_rec;
use crate::strutil::is_space;
use crate::strutil::lemma_trim_identity;
use crate::strutil::trim;
use crate::strutil::trim_spec;

verus! {

pub open spec fn is_hex_digit(c: char) -> bool {
    ('0' <= c && c <= '9') || ('a' <= c && c <= 'f') || ('A' <= c && c <= 'F')
}

/// Hex digits as the codec itself writes them: lowercase only.
pub open spec fn is_lower_hex_digit(c: char) -> bool {
    ('0' <= c && c <= '9') || ('a' <= c && c <= 'f')
}

pub open spec fn hex_digit_val(c: char) -> int {
    if '0' <= c && c <= '9' {
        c as u32 - 48
    } else if 'a' <= c && c <= 'f' {
        c as u32 - 87
    } else {
        c as u32 - 55
    }
}

/// The lowercase hex digit with value `d`.
pub open spec fn hex_digit_char(d: int) -> char {
    if d < 10 {
        ((48 + d) as u8) as char
    } else {
        ((87 + d) as u8) as char
    }
}

/// The hex encoding of a byte string: two lowercase digits per byte.
pub open spec fn hex_encode(b: Seq<u8>) -> Seq<char>
    decreases b.len(),
{
    if b.len() == 0 {
        Seq::empty()
    } else {
        hex_encode(b.drop_last()) + seq![
            hex_digit_char(b.last() as int / 16),
            hex_digit_char(b.last() as int % 16),
        ]
    }
}

/// The bytes a hex string denotes; `None` on odd length or a non-hex
/// character. Both digit cases are accepted.
pub open spec fn hex_decode(s: Seq<char>) -> Option<Seq<u8>>
    decreases s.len(),
{
    if s.len() == 0 {
        Some(Seq::empty())
    } else if s.len() == 1 {
        None
    } else {
        let c1 = s[s.len() - 2];
        let c2 = s[s.len() - 1];
        if is_hex_digit(c1) && is_hex_digit(c2) {
            match hex_decode(s.subrange(0, s.len() - 2)) {
                Some(rest) => Some(rest.push((hex_digit_val(c1) * 16 + hex_digit_val(c2)) as u8)),
                None => None,
            }
        } else {
            None
        }
    }
}

/// A string in exactly the form the encoder produces: pairs of lowercase
/// hex digits.
pub open spec fn is_canonical_hex(s: Seq<char>) -> bool {
    s.len() % 2 == 0 && (forall|i: int| 0 <= i < s.len() ==> is_lower_hex_digit(#[trigger] s[i]))
}

pub proof fn lemma_hex_digit_roundtrip(d: int)
    requires
        0 <= d < 16,
    ensures
        hex_digit_val(hex_digit_char(d)) == d,
        is_lower_hex_digit(hex_digit_char(d)),
        hex_digit_char(d) != ',',
{
}

pub proof fn lemma_hex_char_roundtrip(c: char)
    requires
        is_lower_hex_digit(c),
    ensures
        0 <= hex_digit_val(c) < 16,
        hex_digit_char(hex_digit_val(c)) == c,
{
}

/// What the encoder writes: twice the bytes, lowercase digits, no comma.
pub proof fn lemma_hex_encode_props(b: Seq<u8>)
    ensures
        hex_encode(b).len() == 2 * b.len(),
        no_comma(hex_encode(b)),
        is_canonical_hex(hex_encode(b)),
    decreases b.len(),
{
    if b.len() > 0 {
        lemma_hex_encode_props(b.drop_last());
        lemma_hex_digit_roundtrip(b.last() as int / 16);
        lemma_hex_digit_roundtrip(b.last() as int % 16);
    }
}

/// Decoding an encoding gives back the bytes.
pub proof fn lemma_hex_decode_encode(b: Seq<u8>)
    ensures
        hex_decode(hex_encode(b)) == Some(b),
    decreases b.len(),
{
    if b.len() == 0 {
        assert(hex_encode(b) =~= Seq::<char>::empty());
        assert(Some(b) =~= Some(Seq::<u8>::empty()));
    } else {
        lemma_hex_decode_encode(b.drop_last());
        lemma_hex_encode_props(b.drop_last());
        let s = hex_encode(b);
        let v = b.last() as int;
        lemma_hex_digit_roundtrip(v / 16);
        lemma_hex_digit_roundtrip(v % 16);
        assert(s.len() == hex_encode(b.drop_last()).len() + 2);
        assert(s[s.len() - 2] == hex_digit_char(v / 16));
        assert(s[s.len() - 1] == hex_digit_char(v % 16));
        assert(s.subrange(0, s.len() - 2) =~= hex_encode(b.drop_last()));
        assert((v / 16) * 16 + v % 16 == v) by (nonlinear_arith);
        assert(b.drop_last().push(b.last()) =~= b);
    }
}

/// Encoding what a canonical hex string decodes to gives back the string.
pub proof fn lemma_hex_encode_decode(s: Seq<char>)
    requires
        is_canonical_hex(s),
    ensures
        hex_decode(s) matches Some(b) && hex_encode(b) == s,
    decreases s.len(),
{
    if s.len() == 0 {
        assert(hex_encode(Seq::<u8>::empty()) =~= Seq::<char>::empty());
    } else {
        let pre = s.subrange(0, s.len() - 2);
        assert(is_canonical_hex(pre));
        lemma_hex_encode_decode(pre);
        let c1 = s[s.len() - 2];
        let c2 = s[s.len() - 1];
        lemma_hex_char_roundtrip(c1);
        lemma_hex_char_roundtrip(c2);
        let byte = (hex_digit_val(c1) * 16 + hex_digit_val(c2)) as u8;
        assert(byte as int == hex_digit_val(c1) * 16 + hex_digit_val(c2));
        assert(byte as int / 16 == hex_digit_val(c1) && byte as int % 16 == hex_digit_val(c2))
            by (nonlinear_arith)
            requires
                0 <= hex_digit_val(c1) < 16,
                0 <= hex_digit_val(c2) < 16,
                byte as int == hex_digit_val(c1) * 16 + hex_digit_val(c2),
        ;
        let b = hex_decode(s)->Some_0;
        assert(b.drop_last() =~= hex_decode(pre)->Some_0);
        assert(hex_encode(b) =~= s);
    }
}

/// An odd-length string never hex-decodes.
pub proof fn lemma_hex_decode_odd(s: Seq<char>)
    requires
        s.len() % 2 == 1,
    ensures
        hex_decode(s) is None,
    decreases s.len(),
{
    if s.len() > 1 {
        lemma_hex_decode_odd(s.subrange(0, s.len() - 2));
    }
}

/// A string with a non-hex character never hex-decodes.
pub proof fn lemma_hex_decode_bad(s: Seq<char>, k: int)
    requires
        0 <= k < s.len(),
        !is_hex_digit(s[k]),
    ensures
        hex_decode(s) is None,
    decreases s.len(),
{
    if s.len() == 1 {
    } else {
        if k < s.len() - 2 {
            lemma_hex_decode_bad(s.subrange(0, s.len() - 2), k);
        }
    }
}

/// One lowercase hex digit as a one-character slice.
fn hex_digit_str(d: u8) -> (s: &'static str)
    requires
        d < 16,
    ensures
        s@ =~= seq![hex_digit_char(d as int)],
{
    proof {
        reveal_strlit("0");
        reveal_strlit("1");
        reveal_strlit("2");
        reveal_strlit("3");
        reveal_strlit("4");
        reveal_strlit("5");
        reveal_strlit("6");
        reveal_strlit("7");
        reveal_strlit("8");
        reveal_strlit("9");
        reveal_strlit("a");
        reveal_strlit("b");
        reveal_strlit("c");
        reveal_strlit("d");
        reveal_strlit("e");
        reveal_strlit("f");
    }
    match d {
        0 => "0",
        1 => "1",
        2 => "2",
        3 => "3",
        4 => "4",
        5 => "5",
        6 => "6",
        7 => "7",
        8 => "8",
        9 => "9",
        10 => "a",
        11 => "b",
        12 => "c",
        13 => "d",
        14 => "e",
        _ => "f",
    }
}

/// Hex-encodes a byte string, two lowercase digits per byte.
pub fn encode_hex(b: &Vec<u8>) -> (r: String)
    ensures
        r@ == hex_encode(b@),
{
    let mut r = String::new();
    let n = b.len();
    let mut i: usize = 0;
    proof {
        assert(b@.subrange(0, 0) =~= Seq::<u8>::empty());
    }
    while i < n
        invariant
            i <= n,
            n == b@.len(),
            r@ == hex_encode(b@.subrange(0, i as int)),
        decreases n - i,
    {
        let byte = b[i];
        let hi = byte / 16;
        let lo = byte % 16;
        r.append(hex_digit_str(hi));
        r.append(hex_digit_str(lo));
        proof {
            let ext = b@.subrange(0, i + 1);
            assert(ext.drop_last() =~= b@.subrange(0, i as int));
            assert(ext.last() == b@[i as int]);
        }
        i = i + 1;
    }
    proof {
        assert(b@.subrange(0, n as int) =~= b@);
    }
    r
}

fn is_hex_digit_exec(c: char) -> (r: bool)
    ensures
        r == is_hex_digit(c),
{
    let cu = c as u32;
    (48 <= cu && cu <= 57) || (97 <= cu && cu <= 102) || (65 <= cu && cu <= 70)
}

fn hex_val_exec(c: char) -> (v: u8)
    requires
        is_hex_digit(c),
    ensures
        v == hex_digit_val(c),
        v < 16,
{
    let cu = c as u32;
    if cu >= 97 {
        (cu - 87) as u8
    } else if cu >= 65 {
        (cu - 55) as u8
    } else {
        (cu - 48) as u8
    }
}

/// Hex-decodes a string; `None` on odd length or a non-hex character.
pub fn decode_hex(s: &str) -> (r: Option<Vec<u8>>)
    ensures
        r matches Some(v) ==> hex_decode(s@) == Some(v@),
        r is None ==> hex_decode(s@) is None,
{
    let n = s.unicode_len();
    if n % 2 == 1 {
        proof {
            lemma_hex_decode_odd(s@);
        }
        return None;
    }
    let mut out: Vec<u8> = Vec::new();
    let mut i: usize = 0;
    proof {
        assert(s@.subrange(0, 0) =~= Seq::<char>::empty());
    }
    while i + 1 < n
        invariant
            i % 2 == 0,
            i <= n,
            n % 2 == 0,
            n == s@.len(),
            hex_decode(s@.subrange(0, i as int)) == Some(out@),
        decreases n - i,
    {
        let c1 = s.get_char(i);
        let c2 = s.get_char(i + 1);
        if !is_hex_digit_exec(c1) {
            proof {
                lemma_hex_decode_bad(s@, i as int);
            }
            return None;
        }
        if !is_hex_digit_exec(c2) {
            proof {
                lemma_hex_decode_bad(s@, i + 1);
            }
            return None;
        }
        let v1 = hex_val_exec(c1);
        let v2 = hex_val_exec(c2);
        let byte = v1 * 16 + v2;
        let ghost old_out = out@;
        out.push(byte);
        proof {
            let ext = s@.subrange(0, i + 2);
            assert(ext.len() == i + 2);
            assert(ext[ext.len() - 2] == s@[i as int]);
            assert(ext[ext.len() - 1] == s@[i + 1]);
            assert(ext.subrange(0, ext.len() - 2) =~= s@.subrange(0, i as int));
            assert(byte as int == hex_digit_val(s@[i as int]) * 16 + hex_digit_val(s@[i + 1]));
            assert(out@ =~= old_out.push(byte));
        }
        i = i + 2;
    }
    proof {
        assert(i == n);
        assert(s@.subrange(0, n as int) =~= s@);
    }
    Some(out)
}

/// The line the codec writes for the given field byte values.
pub open spec fn encode_fields_spec(fields: Seq<Seq<u8>>) -> Seq<char> {
    join_commas(fields.map_values(|f: Seq<u8>| hex_encode(f)))
}

/// The field byte values a line denotes: split on commas, trim each part,
/// hex-decode it; `None` when any part fails to decode.
pub open spec fn decode_line_spec(s: Seq<char>) -> Option<Seq<Seq<u8>>> {
    let parts = split_commas(s);
    if forall|i: int| 0 <= i < parts.len() ==> hex_decode(trim_spec(#[trigger] parts[i])) is Some {
        Some(parts.map_values(|p: Seq<char>| hex_decode(trim_spec(p))->Some_0))
    } else {
        None
    }
}

/// A hex digit is not white space, so trimming never touches one.
pub proof fn lemma_hex_untrimmed(s: Seq<char>)
    requires
        forall|i: int| 0 <= i < s.len() ==> is_hex_digit(#[trigger] s[i]),
    ensures
        trim_spec(s) == s,
{
    assert forall|i: int| 0 <= i < s.len() implies !is_space(#[trigger] s[i]) by {
        assert(is_hex_digit(s[i]));
    }
    lemma_trim_identity(s);
}

/// A line in exactly the form the encoder writes: every comma-separated
/// part is canonical hex.
pub open spec fn well_formed_line(s: Seq<char>) -> bool {
    forall|i: int|
        0 <= i < split_commas(s).len() ==> is_canonical_hex(#[trigger] split_commas(s)[i])
}

/// Encodes field byte values as one line.
pub fn encode_fields(fields: &Vec<Vec<u8>>) -> (r: String)
    ensures
        r@ == encode_fields_spec(fields.deep_view()),
{
    let mut parts: Vec<String> = Vec::new();
    let n = fields.len();
    let mut i: usize = 0;
    while i < n
        invariant
            i <= n,
            n == fields.len(),
            parts.deep_view() =~= fields.deep_view().subrange(0, i as int).map_values(
                |f: Seq<u8>| hex_encode(f),
            ),
        decreases n - i,
    {
        let ghost old_parts = parts.deep_view();
        let encoded = encode_hex(&fields[i]);
        parts.push(encoded);
        proof {
            assert(fields@[i as int].deep_view() =~= fields@[i as int]@);
            assert(fields.deep_view()[i as int] == fields@[i as int].deep_view());
            assert(parts.deep_view() =~= old_parts.push(hex_encode(fields.deep_view()[i as int])));
            assert(old_parts.push(hex_encode(fields.deep_view()[i as int])) =~= fields.deep_view()
                .subrange(0, i + 1).map_values(|f: Seq<u8>| hex_encode(f)));
        }
        i = i + 1;
    }
    proof {
        assert(fields.deep_view().subrange(0, n as int) =~= fields.deep_view());
    }
    join_line(&parts)
}

/// Decodes one line into field byte values; `None` when any part, after
/// trimming, is not valid hex.
pub fn decode_line(line: &str) -> (r: Option<Vec<Vec<u8>>>)
    ensures
        r matches Some(v) ==> decode_line_spec(line@) == Some(v.deep_view()),
        r is None ==> decode_line_spec(line@) is None,
{
    let parts = split_line(line);
    let ghost sparts = split_commas(line@);
    let mut out: Vec<Vec<u8>> = Vec::new();
    let n = parts.len();
    let mut i: usize = 0;
    while i < n
        invariant
            i <= n,
            n == parts.len(),
            sparts == split_commas(line@),
            parts.deep_view() == sparts,
            forall|j: int| 0 <= j < i ==> hex_decode(trim_spec(#[trigger] sparts[j])) is Some,
            out.deep_view().len() == i,
            forall|j: int|
                0 <= j < i ==> #[trigger] out.deep_view()[j] == hex_decode(
                    trim_spec(sparts[j]),
                )->Some_0,
        decreases n - i,
    {
        proof {
            assert(parts@[i as int]@ == parts.deep_view()[i as int]);
        }
        let token = trim(parts[i].as_str());
        match decode_hex(token.as_str()) {
            Some(bytes) => {
                let ghost old_out = out.deep_view();
                proof {
                    assert(bytes.deep_view() =~= bytes@);
                }
                out.push(bytes);
                proof {
                    assert(out.deep_view() =~= old_out.push(bytes.deep_view()));
                }
            },
            None => {
                proof {
                    assert(hex_decode(trim_spec(sparts[i as int])) is None);
                    assert(!(forall|j: int|
                        0 <= j < split_commas(line@).len() ==> hex_decode(
                            trim_spec(#[trigger] split_commas(line@)[j]),
                        ) is Some)) by {
                        assert(split_commas(line@)[i as int] == sparts[i as int]);
                    }
                }
                return None;
            },
        }
        i = i + 1;
    }
    proof {
        assert(out.deep_view() =~= sparts.map_values(
            |p: Seq<char>| hex_decode(trim_spec(p))->Some_0,
        ));
    }
    Some(out)
}

/// Decoding an encoded row reconstructs the same field byte values, for
/// any row with at least one field.
pub proof fn lemma_decode_encode_line(fields: Seq<Seq<u8>>)
    requires
        fields.len() >= 1,
    ensures
        decode_line_spec(encode_fields_spec(fields)) == Some(fields),
{
    let parts = fields.map_values(|f: Seq<u8>| hex_encode(f));
    assert forall|i: int| 0 <= i < parts.len() implies no_comma(#[trigger] parts[i]) by {
        lemma_hex_encode_props(fields[i]);
    }
    lemma_split_join(parts);
    assert forall|i: int|
        0 <= i < parts.len() implies hex_decode(trim_spec(#[trigger] parts[i])) == Some(
        fields[i],
    ) by {
        lemma_hex_encode_props(fields[i]);
        lemma_hex_untrimmed(parts[i]);
        lemma_hex_decode_encode(fields[i]);
    }
    assert(parts.map_values(|p: Seq<char>| hex_decode(trim_spec(p))->Some_0) =~= fields);
}

/// Encoding a decoded line reproduces the line, for any well-formed
/// hex-encoded row line.
pub proof fn lemma_encode_decode_line(s: Seq<char>)
    requires
        well_formed_line(s),
    ensures
        decode_line_spec(s) matches Some(f) && encode_fields_spec(f) == s,
{
    let parts = split_commas(s);
    assert forall|i: int|
        0 <= i < parts.len() implies hex_decode(trim_spec(#[trigger] parts[i])) is Some
        && hex_encode(hex_decode(trim_spec(parts[i]))->Some_0) == parts[i] by {
        lemma_hex_untrimmed(parts[i]);
        lemma_hex_encode_decode(parts[i]);
    }
    let f = decode_line_spec(s)->Some_0;
    assert(f.map_values(|b: Seq<u8>| hex_encode(b)) =~= parts);
    lemma_join_split_rec(s, Seq::empty());
    assert(Seq::<char>::empty() + s =~= s);
}

} // verus!
