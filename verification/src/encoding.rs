//! Hexadecimal text of object names, through the `hex` crate.

use vstd::prelude::*;

verus! {

/// The lowercase hexadecimal digit of a value below 16.
pub open spec fn hex_digit(v: nat) -> u8 {
    if v < 10 {
        (48 + v) as u8
    } else {
        (87 + v) as u8
    }
}

/// Lowercase hexadecimal text of `data`: two digits per byte, high half
/// first.
pub open spec fn hex_text(data: Seq<u8>) -> Seq<u8> {
    Seq::new(
        2 * data.len(),
        |i: int|
            if i % 2 == 0 {
                hex_digit((data[i / 2] / 16) as nat)
            } else {
                hex_digit((data[i / 2] % 16) as nat)
            },
    )
}

/// The value of a hexadecimal digit in either case.
pub open spec fn hex_value(c: u8) -> Option<u8> {
    if 48 <= c <= 57 {
        Some((c - 48) as u8)
    } else if 65 <= c <= 70 {
        Some((c - 55) as u8)
    } else if 97 <= c <= 102 {
        Some((c - 87) as u8)
    } else {
        None
    }
}

/// The bytes that hexadecimal text stands for: an even number of digits, in
/// either case, two per byte.
pub open spec fn hex_bytes(s: Seq<u8>) -> Option<Seq<u8>> {
    if s.len() % 2 == 0 && forall|i: int| 0 <= i < s.len() ==> (#[trigger] hex_value(s[i])) is Some {
        Some(
            Seq::new(
                s.len() / 2,
                |j: int| (hex_value(s[2 * j]).unwrap() * 16 + hex_value(s[2 * j + 1]).unwrap()) as u8,
            ),
        )
    } else {
        None
    }
}

/// Text that is made of lowercase hexadecimal digits only.
pub open spec fn is_lower_hex(s: Seq<u8>) -> bool {
    forall|i: int| 0 <= i < s.len() ==> (48 <= #[trigger] s[i] <= 57 || 97 <= s[i] <= 102)
}

#[verifier::external_type_specification]
#[verifier::external_body]
pub struct ExFromHexError(::hex::FromHexError);

/// Calls `hex::encode`, which writes each byte as two lowercase hexadecimal
/// digits, high half first; the contract states exactly that text.
#[verifier::external_body]
pub(crate) fn hex_encode(data: &[u8]) -> (res: Vec<u8>)
    ensures
        res@ == hex_text(data@),
{
    ::hex::encode(data).into_bytes()
}

/// Calls `hex::decode`, which accepts an even number of hexadecimal digits in
/// either case and gives two digits per byte; the contract states on which
/// inputs it succeeds and what it gives then, not which error it gives.
#[verifier::external_body]
pub(crate) fn hex_decode(data: &[u8]) -> (res: Result<Vec<u8>, ::hex::FromHexError>)
    ensures
        res is Ok <==> hex_bytes(data@) is Some,
        res matches Ok(v) ==> hex_bytes(data@) == Some(v@),
{
    ::hex::decode(data)
}

/// Hexadecimal text is lowercase hex digits, twice as long as the bytes.
pub proof fn lemma_hex_text_shape(data: Seq<u8>)
    ensures
        hex_text(data).len() == 2 * data.len(),
        is_lower_hex(hex_text(data)),
{
    let t = hex_text(data);
    assert forall|i: int| 0 <= i < t.len() implies (48 <= #[trigger] t[i] <= 57 || 97 <= t[i]
        <= 102) by {
        let b = data[i / 2];
        assert(b / 16 < 16 && b % 16 < 16);
    }
}

/// Decoding the hexadecimal text of bytes gives the bytes back.
pub proof fn lemma_hex_roundtrip(data: Seq<u8>)
    ensures
        hex_bytes(hex_text(data)) == Some(data),
{
    let t = hex_text(data);
    lemma_hex_text_shape(data);
    assert forall|i: int| 0 <= i < t.len() implies (#[trigger] hex_value(t[i])) is Some by {
        let b = data[i / 2];
        assert(b / 16 < 16 && b % 16 < 16);
    }
    let d = hex_bytes(t).unwrap();
    assert forall|j: int| 0 <= j < data.len() implies d[j] == data[j] by {
        let b = data[j];
        assert((2 * j) / 2 == j && (2 * j + 1) / 2 == j);
        assert((2 * j) % 2 == 0 && (2 * j + 1) % 2 == 1);
        assert(b / 16 < 16 && b % 16 < 16);
        assert((b / 16) * 16 + b % 16 == b);
    }
    assert(d =~= data);
}

/// Lowercase hexadecimal text of even length decodes to bytes whose text is
/// the same again.
pub proof fn lemma_hex_bytes_text(s: Seq<u8>)
    requires
        s.len() % 2 == 0,
        is_lower_hex(s),
    ensures
        hex_bytes(s) is Some,
        hex_bytes(s).unwrap().len() == s.len() / 2,
        hex_text(hex_bytes(s).unwrap()) == s,
{
    assert forall|i: int| 0 <= i < s.len() implies (#[trigger] hex_value(s[i])) is Some by {
        assert(48 <= s[i] <= 57 || 97 <= s[i] <= 102);
    }
    let v = hex_bytes(s).unwrap();
    let t = hex_text(v);
    assert forall|i: int| 0 <= i < s.len() implies t[i] == s[i] by {
        let j = i / 2;
        assert(0 <= j < v.len());
        let hi = hex_value(s[2 * j]).unwrap();
        let lo = hex_value(s[2 * j + 1]).unwrap();
        assert(hi < 16 && lo < 16);
        assert(v[j] == (hi * 16 + lo) as u8);
        assert(v[j] / 16 == hi && v[j] % 16 == lo);
        if i % 2 == 0 {
            assert(i == 2 * j);
        } else {
            assert(i == 2 * j + 1);
        }
    }
    assert(t =~= s);
}

} // verus!
