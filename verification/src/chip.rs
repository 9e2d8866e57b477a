use vstd::prelude::*;

use crate::errors::Error;

verus! {

/// ASCII uppercase folding of one byte.
pub open spec fn ascii_upper(c: u8) -> u8 {
    if 97 <= c <= 122 {
        (c - 32) as u8
    } else {
        c
    }
}

/// ASCII uppercase folding of a byte string.
pub open spec fn upper_bytes(s: Seq<u8>) -> Seq<u8> {
    Seq::new(s.len(), |i: int| ascii_upper(s[i]))
}

/// The chip-family code for a name, compared without regard to ASCII
/// case; `None` for a name outside the fixed table.
pub open spec fn spec_chip_code(name: Seq<u8>) -> Option<u8> {
    let u = upper_bytes(name);
    if u == seq![82u8, 75u8, 50u8, 57u8, 88u8, 88u8] || u == seq![82u8, 75u8, 50u8, 57u8] {
        Some(0x50u8)  // RK29XX | RK29
    } else if u == seq![82u8, 75u8, 51u8, 48u8, 88u8, 88u8] || u == seq![82u8, 75u8, 51u8, 48u8] {
        Some(0x60u8)  // RK30XX | RK30
    } else if u == seq![82u8, 75u8, 51u8, 49u8, 88u8, 88u8] || u == seq![82u8, 75u8, 51u8, 49u8] {
        Some(0x70u8)  // RK31XX | RK31
    } else if u == seq![82u8, 75u8, 51u8, 50u8, 88u8, 88u8] || u == seq![82u8, 75u8, 51u8, 50u8] {
        Some(0x80u8)  // RK32XX | RK32
    } else if u == seq![82u8, 75u8, 51u8, 51u8, 54u8, 56u8] {
        Some(0x41u8)  // RK3368
    } else if u == seq![82u8, 75u8, 51u8, 51u8, 50u8, 54u8] {
        Some(0x36u8)  // RK3326
    } else if u == seq![82u8, 75u8, 51u8, 53u8, 54u8, 50u8] {
        Some(0x32u8)  // RK3562
    } else if u == seq![82u8, 75u8, 51u8, 53u8, 54u8, 54u8] {
        Some(0x38u8)  // RK3566
    } else if u == seq![80u8, 88u8, 51u8, 48u8] {
        Some(0x30u8)  // PX30
    } else {
        None
    }
}

/// The display name for a chip-family code, lowercase tail included;
/// `None` for a code outside the fixed table.
pub open spec fn spec_chip_name(code: u8) -> Option<Seq<u8>> {
    if code == 0x50 {
        Some(seq![82u8, 75u8, 50u8, 57u8, 120u8, 120u8])  // RK29xx
    } else if code == 0x60 {
        Some(seq![82u8, 75u8, 51u8, 48u8, 120u8, 120u8])  // RK30xx
    } else if code == 0x70 {
        Some(seq![82u8, 75u8, 51u8, 49u8, 120u8, 120u8])  // RK31xx
    } else if code == 0x80 {
        Some(seq![82u8, 75u8, 51u8, 50u8, 120u8, 120u8])  // RK32xx
    } else if code == 0x41 {
        Some(seq![82u8, 75u8, 51u8, 51u8, 54u8, 56u8])  // RK3368
    } else if code == 0x36 {
        Some(seq![82u8, 75u8, 51u8, 51u8, 50u8, 54u8])  // RK3326
    } else if code == 0x32 {
        Some(seq![82u8, 75u8, 51u8, 53u8, 54u8, 50u8])  // RK3562
    } else if code == 0x38 {
        Some(seq![82u8, 75u8, 51u8, 53u8, 54u8, 54u8])  // RK3566
    } else if code == 0x30 {
        Some(seq![80u8, 88u8, 51u8, 48u8])  // PX30
    } else {
        None
    }
}

/// Whether `v` holds exactly the bytes of `lit`.
pub(crate) fn eq_lit<const N: usize>(v: &Vec<u8>, lit: &[u8; N]) -> (r: bool)
    ensures
        r == (v@ =~= lit@),
{
    if v.len() != N {
        return false;
    }
    let mut i: usize = 0;
    while i < N
        invariant
            i <= N,
            v@.len() == N == lit@.len(),
            forall|j: int| 0 <= j < i ==> v@[j] == lit@[j],
        decreases N - i,
    {
        if v[i] != lit[i] {
            return false;
        }
        i = i + 1;
    }
    true
}

/// ASCII uppercase folding, byte by byte.
fn to_upper_vec(s: &Vec<u8>) -> (r: Vec<u8>)
    ensures
        r@ =~= upper_bytes(s@),
{
    let n: usize = s.len();
    let mut out: Vec<u8> = Vec::new();
    let mut i: usize = 0;
    while i < n
        invariant
            i <= n == s@.len(),
            out@.len() == i,
            forall|j: int| 0 <= j < i ==> out@[j] == ascii_upper(s@[j]),
        decreases n - i,
    {
        let c = s[i];
        if 97 <= c && c <= 122 {
            out.push(c - 32);
        } else {
            out.push(c);
        }
        i = i + 1;
    }
    out
}

/// Map a chip-family name to its code, without regard to ASCII case; an
/// unknown name is `UnsupportedChipFamily`.
pub fn chip_name_to_code(chip: &Vec<u8>) -> (r: Result<u8, Error>)
    ensures
        match r {
            Ok(c) => spec_chip_code(chip@) == Some(c),
            Err(e) => e == Error::UnsupportedChipFamily && spec_chip_code(chip@) is None,
        },
{
    let u = to_upper_vec(chip);
    if eq_lit(&u, &[82u8, 75u8, 50u8, 57u8, 88u8, 88u8]) || eq_lit(&u, &[82u8, 75u8, 50u8, 57u8]) {
        Ok(0x50u8)
    } else if eq_lit(&u, &[82u8, 75u8, 51u8, 48u8, 88u8, 88u8]) || eq_lit(
        &u,
        &[82u8, 75u8, 51u8, 48u8],
    ) {
        Ok(0x60u8)
    } else if eq_lit(&u, &[82u8, 75u8, 51u8, 49u8, 88u8, 88u8]) || eq_lit(
        &u,
        &[82u8, 75u8, 51u8, 49u8],
    ) {
        Ok(0x70u8)
    } else if eq_lit(&u, &[82u8, 75u8, 51u8, 50u8, 88u8, 88u8]) || eq_lit(
        &u,
        &[82u8, 75u8, 51u8, 50u8],
    ) {
        Ok(0x80u8)
    } else if eq_lit(&u, &[82u8, 75u8, 51u8, 51u8, 54u8, 56u8]) {
        Ok(0x41u8)
    } else if eq_lit(&u, &[82u8, 75u8, 51u8, 51u8, 50u8, 54u8]) {
        Ok(0x36u8)
    } else if eq_lit(&u, &[82u8, 75u8, 51u8, 53u8, 54u8, 50u8]) {
        Ok(0x32u8)
    } else if eq_lit(&u, &[82u8, 75u8, 51u8, 53u8, 54u8, 54u8]) {
        Ok(0x38u8)
    } else if eq_lit(&u, &[80u8, 88u8, 51u8, 48u8]) {
        Ok(0x30u8)
    } else {
        Err(Error::UnsupportedChipFamily)
    }
}

/// Map a chip-family code back to its display name; the caller renders
/// an unknown code as it sees fit.
pub fn chip_code_to_name(code: u8) -> (r: Option<Vec<u8>>)
    ensures
        match r {
            Some(v) => spec_chip_name(code) == Some(v@),
            None => spec_chip_name(code) is None,
        },
{
    let lit: [u8; 6] = if code == 0x50 {
        [82u8, 75u8, 50u8, 57u8, 120u8, 120u8]
    } else if code == 0x60 {
        [82u8, 75u8, 51u8, 48u8, 120u8, 120u8]
    } else if code == 0x70 {
        [82u8, 75u8, 51u8, 49u8, 120u8, 120u8]
    } else if code == 0x80 {
        [82u8, 75u8, 51u8, 50u8, 120u8, 120u8]
    } else if code == 0x41 {
        [82u8, 75u8, 51u8, 51u8, 54u8, 56u8]
    } else if code == 0x36 {
        [82u8, 75u8, 51u8, 51u8, 50u8, 54u8]
    } else if code == 0x32 {
        [82u8, 75u8, 51u8, 53u8, 54u8, 50u8]
    } else if code == 0x38 {
        [82u8, 75u8, 51u8, 53u8, 54u8, 54u8]
    } else if code == 0x30 {
        [80u8, 88u8, 51u8, 48u8, 0u8, 0u8]
    } else {
        return None;
    };
    let take: usize = if code == 0x30 {
        4
    } else {
        6
    };
    let mut out: Vec<u8> = Vec::new();
    let mut i: usize = 0;
    while i < take
        invariant
            take <= 6,
            i <= take,
            out@.len() == i,
            forall|j: int| 0 <= j < i ==> out@[j] == lit@[j],
        decreases take - i,
    {
        out.push(lit[i]);
        i = i + 1;
    }
    assert(out@ =~= lit@.take(take as int));
    Some(out)
}

/// Whether `c` is an ASCII decimal digit.
pub open spec fn is_digit(c: u8) -> bool {
    48 <= c <= 57
}

/// The ASCII digits of `s`, in order, everything else dropped.
pub open spec fn digit_seq(s: Seq<u8>) -> Seq<u8>
    decreases s.len(),
{
    if s.len() == 0 {
        Seq::empty()
    } else if is_digit(s[0]) {
        seq![s[0]] + digit_seq(s.drop_first())
    } else {
        digit_seq(s.drop_first())
    }
}

/// Collect the ASCII digits of a chip name, in order.
pub fn chip_digits(chip: &Vec<u8>) -> (r: Vec<u8>)
    ensures
        r@ =~= digit_seq(chip@),
{
    let n: usize = chip.len();
    let mut out: Vec<u8> = Vec::new();
    proof {
        assert(chip@.skip(0) =~= chip@);
    }
    let mut i: usize = 0;
    while i < n
        invariant
            i <= n == chip@.len(),
            digit_seq(chip@) =~= out@ + digit_seq(chip@.skip(i as int)),
        decreases n - i,
    {
        let c = chip[i];
        proof {
            assert(chip@.skip(i as int)[0] == chip@[i as int]);
            assert(chip@.skip(i as int).drop_first() =~= chip@.skip(i + 1));
        }
        if 48 <= c && c <= 57 {
            let ghost prev = out@;
            out.push(c);
            proof {
                assert(prev + digit_seq(chip@.skip(i as int)) =~= (prev.push(c)) + digit_seq(
                    chip@.skip(i + 1),
                ));
            }
        }
        i = i + 1;
    }
    proof {
        assert(chip@.skip(n as int) =~= Seq::<u8>::empty());
    }
    out
}

} // verus!
