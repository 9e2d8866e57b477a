use vstd::prelude::*;

verus! {

/// Whether `c` is a lowercase ASCII hex digit.
pub open spec fn is_lower_hex_digit(c: u8) -> bool {
    (48 <= c <= 57) || (97 <= c <= 102)
}

/// The 32 lowercase hex digits of the MD5 digest of `data`.
pub uninterp spec fn md5_hex_of(data: Seq<u8>) -> Seq<u8>;

/// Relies on `md5::compute`, whose 16-byte digest is a function of the
/// input bytes alone, and on the md5 crate's `LowerHex` rendering, which
/// writes each digest byte as two lowercase hex digits.
#[verifier::external_body]
pub fn md5_hex(data: &Vec<u8>) -> (r: Vec<u8>)
    ensures
        r@ == md5_hex_of(data@),
        r@.len() == 32,
        forall|i: int| 0 <= i < 32 ==> is_lower_hex_digit(#[trigger] r@[i]),
{
    format!("{:x}", md5::compute(data.as_slice())).into_bytes()
}

} // verus!
