use vstd::prelude::*;

use crate::bytes::zeros;

verus! {

// ---------------------------------------------------------------------------
// Fixed-width null-terminated string buffers
// ---------------------------------------------------------------------------

/// Index of the first zero byte of `b`, if any.
pub open spec fn first_nul(b: Seq<u8>) -> Option<int>
    decreases b.len(),
{
    if b.len() == 0 {
        None
    } else if b[0] == 0 {
        Some(0int)
    } else {
        match first_nul(b.drop_first()) {
            Some(i) => Some(i + 1),
            None => None,
        }
    }
}

/// The text a fixed-width buffer holds: the bytes before the first zero
/// byte, or nothing when no terminator is present.
pub open spec fn fixed_str(b: Seq<u8>) -> Option<Seq<u8>> {
    match first_nul(b) {
        Some(i) => Some(b.take(i)),
        None => None,
    }
}

/// `first_nul` returns the least index holding zero, and `None` exactly
/// when no byte is zero.
pub proof fn lemma_first_nul(b: Seq<u8>)
    ensures
        match first_nul(b) {
            Some(i) => 0 <= i < b.len() && b[i] == 0 && forall|j: int| 0 <= j < i ==> b[j] != 0,
            None => forall|j: int| 0 <= j < b.len() ==> b[j] != 0,
        },
    decreases b.len(),
{
    if b.len() > 0 && b[0] != 0 {
        lemma_first_nul(b.drop_first());
        match first_nul(b.drop_first()) {
            Some(i) => {
                assert(b.drop_first()[i] == 0);
                assert forall|j: int| 0 <= j < i + 1 implies b[j] != 0 by {
                    if j > 0 {
                        assert(b.drop_first()[j - 1] != 0);
                    }
                }
            },
            None => {
                assert forall|j: int| 0 <= j < b.len() implies b[j] != 0 by {
                    if j > 0 {
                        assert(b.drop_first()[j - 1] != 0);
                    }
                }
            },
        }
    }
}

/// Decode a fixed-width buffer: the bytes before the first zero byte, or
/// `None` when the buffer carries no terminator.
pub fn decode_fixed_string(buf: &Vec<u8>) -> (r: Option<Vec<u8>>)
    ensures
        match r {
            Some(v) => fixed_str(buf@) == Some(v@),
            None => fixed_str(buf@) is None,
        },
{
    proof {
        lemma_first_nul(buf@);
    }
    let n: usize = buf.len();
    let mut i: usize = 0;
    while i < n
        invariant
            i <= n == buf@.len(),
            forall|j: int| 0 <= j < i ==> buf@[j] != 0,
        decreases n - i,
    {
        if buf[i] == 0 {
            proof {
                lemma_first_nul_at(buf@, i as int);
            }
            return Some(crate::bytes::read_bytes(buf.as_slice(), 0, i));
        }
        i = i + 1;
    }
    proof {
        lemma_first_nul(buf@);
        match first_nul(buf@) {
            Some(k) => {
                assert(buf@[k] != 0);
            },
            None => {},
        }
    }
    None
}

/// If everything before `i` is nonzero and `b[i]` is zero, then `i` is
/// the first zero byte.
proof fn lemma_first_nul_at(b: Seq<u8>, i: int)
    requires
        0 <= i < b.len(),
        b[i] == 0,
        forall|j: int| 0 <= j < i ==> b[j] != 0,
    ensures
        first_nul(b) == Some(i),
{
    lemma_first_nul(b);
    match first_nul(b) {
        Some(k) => {
            if k < i {
                assert(b[k] != 0);
            }
            if k > i {
                assert(b[i] != 0);
            }
        },
        None => {
            assert(b[i] != 0);
        },
    }
}

/// `s` with a leading space added when it does not already start with one.
pub open spec fn space_prefixed(s: Seq<u8>) -> Seq<u8> {
    if s.len() > 0 && s[0] == 32 {
        s
    } else {
        seq![32u8] + s
    }
}

/// The encoding of text into a fixed-width buffer: space-prefix, truncate
/// to one less than the width, zero-fill the rest.
pub open spec fn fixed_enc(s: Seq<u8>, w: nat) -> Seq<u8>
    recommends
        w >= 1,
{
    let t = space_prefixed(s);
    let keep = if t.len() <= w - 1 {
        t.len() as int
    } else {
        w - 1
    };
    t.take(keep) + zeros((w - keep) as nat)
}

/// Encode `s` into a fixed-width buffer of `width` bytes: a space is
/// prefixed when absent, the text is truncated to `width - 1` bytes, and
/// the remainder is zero-filled, so a terminator always remains.
pub fn encode_fixed_string(s: &Vec<u8>, width: usize) -> (r: Vec<u8>)
    requires
        width >= 1,
    ensures
        r@ =~= fixed_enc(s@, width as nat),
        r@.len() == width,
{
    let mut t: Vec<u8> = Vec::new();
    if !(s.len() > 0 && s[0] == 32) {
        t.push(32u8);
    }
    crate::bytes::push_bytes(&mut t, s);
    assert(t@ =~= space_prefixed(s@));
    let keep: usize = if t.len() <= width - 1 {
        t.len()
    } else {
        width - 1
    };
    let mut out = crate::bytes::read_bytes(t.as_slice(), 0, keep);
    assert(out@ =~= space_prefixed(s@).take(keep as int));
    crate::bytes::push_zeros(&mut out, width - keep);
    out
}

/// Round trip of the string codec: text that fits its buffer (leaving
/// room for the space prefix and the terminator) and contains no zero
/// byte decodes back to itself with the single leading space added when
/// none was present.
pub proof fn lemma_fixed_string_roundtrip(s: Seq<u8>, w: nat)
    requires
        w >= 1,
        space_prefixed(s).len() <= w - 1,
        forall|i: int| 0 <= i < s.len() ==> s[i] != 0,
    ensures
        fixed_str(fixed_enc(s, w)) == Some(space_prefixed(s)),
{
    let t = space_prefixed(s);
    let b = fixed_enc(s, w);
    assert(t.take(t.len() as int) =~= t);
    assert(b =~= t + zeros((w - t.len()) as nat));
    assert(forall|j: int| 0 <= j < t.len() ==> t[j] != 0);
    assert(b[t.len() as int] == 0);
    lemma_first_nul_at(b, t.len() as int);
    assert(b.take(t.len() as int) =~= t);
}

// ---------------------------------------------------------------------------
// Hexadecimal rendering and parsing
// ---------------------------------------------------------------------------

/// The lowercase hex digit for a value below sixteen.
pub open spec fn hex_digit(d: int) -> u8 {
    if d < 10 {
        (48 + d) as u8
    } else {
        (87 + d) as u8
    }
}

/// The eight lowercase hex digits of `v`, most significant first.
pub open spec fn hex8(v: u32) -> Seq<u8> {
    Seq::new(8, |i: int| hex_digit(((v >> (28 - 4 * i)) & 0xf) as int))
}

/// A rendered 32-bit field: `0x` followed by eight lowercase hex digits.
pub open spec fn hex10(v: u32) -> Seq<u8> {
    seq![48u8, 120u8] + hex8(v)
}

/// Render `v` as `0x` plus eight zero-padded lowercase hex digits.
pub fn format_hex_u32(v: u32) -> (r: Vec<u8>)
    ensures
        r@ =~= hex10(v),
{
    let mut out: Vec<u8> = Vec::new();
    out.push(48u8);
    out.push(120u8);
    let mut i: usize = 0;
    while i < 8
        invariant
            i <= 8,
            out@.len() == 2 + i,
            out@[0] == 48u8 && out@[1] == 120u8,
            forall|j: int| 0 <= j < i ==> out@[2 + j] == hex8(v)[j],
        decreases 8 - i,
    {
        let shift: u32 = 28 - 4 * (i as u32);
        let d: u32 = (v >> shift) & 0xf;
        assert(((v >> shift) & 0xf) < 16) by (bit_vector);
        let c: u8 = if d < 10 {
            (48 + d) as u8
        } else {
            (87 + d) as u8
        };
        assert(c == hex_digit(((v >> (28 - 4 * (i as int))) & 0xf) as int));
        out.push(c);
        i = i + 1;
    }
    assert(out@ =~= hex10(v));
    out
}

/// Whether `c` is an ASCII hex digit, either case.
pub open spec fn is_hex_digit_byte(c: u8) -> bool {
    (48 <= c <= 57) || (97 <= c <= 102) || (65 <= c <= 70)
}

/// The value of an ASCII hex digit.
pub open spec fn hex_val(c: u8) -> int {
    if 48 <= c <= 57 {
        c - 48
    } else if 97 <= c <= 102 {
        c - 87
    } else {
        c - 55
    }
}

/// Accumulate hex digits left to right, failing on a non-digit or when
/// the value leaves 32 bits; with `neg`, only zero digits keep the value
/// at zero, anything else fails.
pub open spec fn parse_hex_digits(s: Seq<u8>, acc: u32, neg: bool) -> Option<u32>
    decreases s.len(),
{
    if s.len() == 0 {
        Some(acc)
    } else if !is_hex_digit_byte(s[0]) {
        None
    } else if neg {
        if hex_val(s[0]) != 0 || acc != 0 {
            None
        } else {
            parse_hex_digits(s.drop_first(), 0u32, true)
        }
    } else {
        let w = (acc as int) * 16 + hex_val(s[0]);
        if w > 0xffffffff {
            None
        } else {
            parse_hex_digits(s.drop_first(), w as u32, false)
        }
    }
}

/// A base-16 unsigned read: one optional sign, then at least one hex
/// digit, magnitude within 32 bits; a minus sign admits only zero.
pub open spec fn spec_radix16(t: Seq<u8>) -> Option<u32> {
    let signed = t.len() > 0 && (t[0] == 43 || t[0] == 45);
    let body = if signed {
        t.drop_first()
    } else {
        t
    };
    let neg = t.len() > 0 && t[0] == 45;
    if body.len() == 0 {
        None
    } else {
        parse_hex_digits(body, 0u32, neg)
    }
}

/// `s` with every leading `0x` pair removed.
pub open spec fn strip_hex_prefix_lower(s: Seq<u8>) -> Seq<u8>
    decreases s.len(),
{
    if s.len() >= 2 && s[0] == 48 && s[1] == 120 {
        strip_hex_prefix_lower(s.skip(2))
    } else {
        s
    }
}

/// `s` with every leading `0X` pair removed.
pub open spec fn strip_hex_prefix_upper(s: Seq<u8>) -> Seq<u8>
    decreases s.len(),
{
    if s.len() >= 2 && s[0] == 48 && s[1] == 88 {
        strip_hex_prefix_upper(s.skip(2))
    } else {
        s
    }
}

/// Drop every leading `0x` (`upper` selects `0X`) pair of `s` starting
/// at `from`, returning the index where the remainder begins.
fn strip_hex_prefix_from(s: &Vec<u8>, from: usize, upper: bool) -> (r: usize)
    requires
        from <= s@.len(),
    ensures
        from <= r <= s@.len(),
        !upper ==> strip_hex_prefix_lower(s@.skip(from as int)) =~= s@.skip(r as int)
            && strip_hex_prefix_lower(s@.skip(r as int)) =~= s@.skip(r as int),
        upper ==> strip_hex_prefix_upper(s@.skip(from as int)) =~= s@.skip(r as int)
            && strip_hex_prefix_upper(s@.skip(r as int)) =~= s@.skip(r as int),
{
    let x: u8 = if upper {
        88
    } else {
        120
    };
    let n: usize = s.len();
    let mut pos: usize = from;
    while n - pos >= 2 && s[pos] == 48 && s[pos + 1] == x
        invariant
            from <= pos <= n == s@.len(),
            !upper ==> strip_hex_prefix_lower(s@.skip(pos as int)) == strip_hex_prefix_lower(
                s@.skip(from as int),
            ),
            upper ==> strip_hex_prefix_upper(s@.skip(pos as int)) == strip_hex_prefix_upper(
                s@.skip(from as int),
            ),
            x == if upper { 88u8 } else { 120u8 },
        decreases n - pos,
    {
        proof {
            assert(s@.skip(pos as int).skip(2) =~= s@.skip(pos + 2));
            assert(s@.skip(pos as int)[0] == s@[pos as int]);
            assert(s@.skip(pos as int)[1] == s@[pos as int + 1]);
        }
        pos = pos + 2;
    }
    proof {
        if pos < n {
            assert(s@.skip(pos as int)[0] == s@[pos as int]);
        }
        if pos + 1 < n {
            assert(s@.skip(pos as int)[1] == s@[pos as int + 1]);
        }
    }
    pos
}

/// Read a base-16 number from `s` starting at `from`, as a single sign
/// and hex digits; `None` on an empty body, a stray byte, or overflow.
fn parse_radix16_from(s: &Vec<u8>, from: usize) -> (r: Option<u32>)
    requires
        from <= s@.len(),
    ensures
        r == spec_radix16(s@.skip(from as int)),
{
    let ghost t = s@.skip(from as int);
    let n: usize = s.len();
    let mut neg: bool = false;
    let mut i: usize = from;
    if i < n && (s[i] == 43 || s[i] == 45) {
        neg = s[i] == 45;
        i = i + 1;
    }
    let ghost body = s@.skip(i as int);
    proof {
        if from < n {
            assert(t[0] == s@[from as int]);
        }
        if from < n && (s@[from as int] == 43 || s@[from as int] == 45) {
            assert(t.drop_first() =~= body);
        }
    }
    if i == n {
        return None;
    }
    proof {
        assert(body.len() > 0);
        assert(spec_radix16(t) == parse_hex_digits(body, 0u32, neg));
    }
    let mut acc: u32 = 0;
    let mut j: usize = i;
    while j < n
        invariant
            i <= j <= n == s@.len(),
            from <= i,
            t == s@.skip(from as int),
            body == s@.skip(i as int),
            parse_hex_digits(s@.skip(j as int), acc, neg) == parse_hex_digits(body, 0u32, neg),
            spec_radix16(t) == parse_hex_digits(body, 0u32, neg),
            neg ==> acc == 0,
        decreases n - j,
    {
        let c = s[j];
        proof {
            assert(s@.skip(j as int)[0] == s@[j as int]);
            assert(s@.skip(j as int).drop_first() =~= s@.skip(j + 1));
        }
        let d: u32 = if 48 <= c && c <= 57 {
            (c - 48) as u32
        } else if 97 <= c && c <= 102 {
            (c - 87) as u32
        } else if 65 <= c && c <= 70 {
            (c - 55) as u32
        } else {
            assert(parse_hex_digits(s@.skip(j as int), acc, neg) == None::<u32>);
            return None;
        };
        assert(is_hex_digit_byte(s@[j as int]) && d == hex_val(s@[j as int]));
        if neg {
            if d != 0 {
                return None;
            }
        } else {
            let wide: u64 = (acc as u64) * 16 + (d as u64);
            if wide > 0xffffffffu64 {
                assert((acc as int) * 16 + hex_val(s@[j as int]) > 0xffffffff);
                assert(parse_hex_digits(s@.skip(j as int), acc, neg) == None::<u32>);
                return None;
            }
            acc = wide as u32;
        }
        j = j + 1;
    }
    proof {
        assert(s@.skip(n as int) =~= Seq::<u8>::empty());
    }
    Some(acc)
}

/// Read a 32-bit value from a metadata field: every leading `0x` is
/// dropped, the rest is a base-16 number.
pub fn parse_metadata_hex_field(s: &Vec<u8>) -> (r: Option<u32>)
    ensures
        r == spec_radix16(strip_hex_prefix_lower(s@)),
{
    let start = strip_hex_prefix_from(s, 0, false);
    proof {
        assert(s@.skip(0) =~= s@);
    }
    parse_radix16_from(s, start)
}

/// Read the 32-bit code field: every leading `0x`, then every leading
/// `0X`, is dropped, and the rest is a base-16 number.
pub fn parse_code_hex_field(s: &Vec<u8>) -> (r: Option<u32>)
    ensures
        r == spec_radix16(strip_hex_prefix_upper(strip_hex_prefix_lower(s@))),
{
    let start = strip_hex_prefix_from(s, 0, false);
    proof {
        assert(s@.skip(0) =~= s@);
    }
    let start2 = strip_hex_prefix_from(s, start, true);
    parse_radix16_from(s, start2)
}

/// Parsing a rendered field gives back the value: the inverse direction
/// of the hex codec.
pub proof fn lemma_hex10_roundtrip(v: u32)
    ensures
        spec_radix16(strip_hex_prefix_lower(hex10(v))) == Some(v),
{
    let h = hex10(v);
    let d = hex8(v);
    // The accumulator after each digit equals the corresponding high
    // bits of `v`, and every intermediate value stays within bounds.
    assert(((v >> 28) & 0xf) * 16 + ((v >> 24) & 0xf) == (v >> 24) & 0xff && ((v >> 24) & 0xff)
        * 16 + ((v >> 20) & 0xf) == (v >> 20) & 0xfff && ((v >> 20) & 0xfff) * 16 + ((v >> 16)
        & 0xf) == (v >> 16) & 0xffff && ((v >> 16) & 0xffff) * 16 + ((v >> 12) & 0xf) == (v >> 12)
        & 0xfffff && ((v >> 12) & 0xfffff) * 16 + ((v >> 8) & 0xf) == (v >> 8) & 0xffffff && ((v
        >> 8) & 0xffffff) * 16 + ((v >> 4) & 0xf) == (v >> 4) & 0xfffffff && ((v >> 4) & 0xfffffff)
        * 16 + (v & 0xf) == v && ((v >> 28) & 0xf) == v >> 28 && ((v >> 28) & 0xf) <= 15 && ((v
        >> 24) & 0xf) <= 15 && ((v >> 20) & 0xf) <= 15 && ((v >> 16) & 0xf) <= 15 && ((v >> 12)
        & 0xf) <= 15 && ((v >> 8) & 0xf) <= 15 && ((v >> 4) & 0xf) <= 15 && (v & 0xf) <= 15 && (v
        & 0xf) == (v >> 0) & 0xf) by (bit_vector);
    assert(d[0] == hex_digit(((v >> 28) & 0xf) as int) && d[1] == hex_digit(
        ((v >> 24) & 0xf) as int,
    ) && d[2] == hex_digit(((v >> 20) & 0xf) as int) && d[3] == hex_digit(
        ((v >> 16) & 0xf) as int,
    ) && d[4] == hex_digit(((v >> 12) & 0xf) as int) && d[5] == hex_digit(
        ((v >> 8) & 0xf) as int,
    ) && d[6] == hex_digit(((v >> 4) & 0xf) as int) && d[7] == hex_digit((v & 0xf) as int));
    assert(is_hex_digit_byte(d[0]) && hex_val(d[0]) == (v >> 28) & 0xf);
    assert(is_hex_digit_byte(d[1]) && hex_val(d[1]) == (v >> 24) & 0xf);
    assert(is_hex_digit_byte(d[2]) && hex_val(d[2]) == (v >> 20) & 0xf);
    assert(is_hex_digit_byte(d[3]) && hex_val(d[3]) == (v >> 16) & 0xf);
    assert(is_hex_digit_byte(d[4]) && hex_val(d[4]) == (v >> 12) & 0xf);
    assert(is_hex_digit_byte(d[5]) && hex_val(d[5]) == (v >> 8) & 0xf);
    assert(is_hex_digit_byte(d[6]) && hex_val(d[6]) == (v >> 4) & 0xf);
    assert(is_hex_digit_byte(d[7]) && hex_val(d[7]) == v & 0xf);
    // Stripping removes exactly the rendered prefix and stops.
    assert(h.skip(2) =~= d);
    assert(strip_hex_prefix_lower(h) == strip_hex_prefix_lower(d));
    assert(strip_hex_prefix_lower(d) == d);
    // No sign byte: the first digit is a hex digit.
    assert(!(d[0] == 43 || d[0] == 45));
    assert(d.skip(1) =~= d.drop_first());
    assert(d.skip(1).drop_first() =~= d.skip(2));
    assert(d.skip(2).drop_first() =~= d.skip(3));
    assert(d.skip(3).drop_first() =~= d.skip(4));
    assert(d.skip(4).drop_first() =~= d.skip(5));
    assert(d.skip(5).drop_first() =~= d.skip(6));
    assert(d.skip(6).drop_first() =~= d.skip(7));
    assert(d.skip(7).drop_first() =~= Seq::<u8>::empty());
    assert(d.skip(1)[0] == d[1] && d.skip(2)[0] == d[2] && d.skip(3)[0] == d[3] && d.skip(4)[0]
        == d[4] && d.skip(5)[0] == d[5] && d.skip(6)[0] == d[6] && d.skip(7)[0] == d[7]);
    // Unroll the fold one digit at a time.
    assert(parse_hex_digits(d, 0u32, false) == parse_hex_digits(d.skip(1), (v >> 28) as u32, false));
    assert(parse_hex_digits(d.skip(1), (v >> 28) as u32, false) == parse_hex_digits(
        d.skip(2),
        ((v >> 24) & 0xff) as u32,
        false,
    ));
    assert(parse_hex_digits(d.skip(2), ((v >> 24) & 0xff) as u32, false) == parse_hex_digits(
        d.skip(3),
        ((v >> 20) & 0xfff) as u32,
        false,
    ));
    assert(parse_hex_digits(d.skip(3), ((v >> 20) & 0xfff) as u32, false) == parse_hex_digits(
        d.skip(4),
        ((v >> 16) & 0xffff) as u32,
        false,
    ));
    assert(parse_hex_digits(d.skip(4), ((v >> 16) & 0xffff) as u32, false) == parse_hex_digits(
        d.skip(5),
        ((v >> 12) & 0xfffff) as u32,
        false,
    ));
    assert(parse_hex_digits(d.skip(5), ((v >> 12) & 0xfffff) as u32, false) == parse_hex_digits(
        d.skip(6),
        ((v >> 8) & 0xffffff) as u32,
        false,
    ));
    assert(parse_hex_digits(d.skip(6), ((v >> 8) & 0xffffff) as u32, false) == parse_hex_digits(
        d.skip(7),
        ((v >> 4) & 0xfffffff) as u32,
        false,
    ));
    assert(parse_hex_digits(d.skip(7), ((v >> 4) & 0xfffffff) as u32, false) == parse_hex_digits(
        d.skip(7).drop_first(),
        v,
        false,
    ));
    assert(parse_hex_digits(Seq::<u8>::empty(), v, false) == Some(v));
    assert(parse_hex_digits(d, 0u32, false) == Some(v));
}

/// Accumulate decimal digits left to right, failing on a non-digit or
/// when the value passes `max`; with `neg`, only zero digits keep the
/// value at zero, anything else fails.
pub open spec fn parse_dec_digits(s: Seq<u8>, acc: int, neg: bool, max: int) -> Option<int>
    decreases s.len(),
{
    if s.len() == 0 {
        Some(acc)
    } else if !(48 <= s[0] <= 57) {
        None
    } else if neg {
        if s[0] != 48 || acc != 0 {
            None
        } else {
            parse_dec_digits(s.drop_first(), 0, true, max)
        }
    } else {
        let w = acc * 10 + (s[0] - 48);
        if w > max {
            None
        } else {
            parse_dec_digits(s.drop_first(), w, false, max)
        }
    }
}

/// A base-ten unsigned read bounded by `max`: one optional sign, then at
/// least one digit; a minus sign admits only zero.
pub open spec fn spec_dec(t: Seq<u8>, max: int) -> Option<int> {
    let signed = t.len() > 0 && (t[0] == 43 || t[0] == 45);
    let body = if signed {
        t.drop_first()
    } else {
        t
    };
    let neg = t.len() > 0 && t[0] == 45;
    if body.len() == 0 {
        None
    } else {
        parse_dec_digits(body, 0, neg, max)
    }
}

/// Read a bounded decimal number from `s`: a single optional sign, then
/// digits; `None` on an empty body, a stray byte, or a value past `max`.
pub fn parse_dec(s: &Vec<u8>, max: u32) -> (r: Option<u32>)
    ensures
        match r {
            Some(v) => spec_dec(s@, max as int) == Some(v as int) && v <= max,
            None => spec_dec(s@, max as int) is None,
        },
{
    let ghost t = s@;
    let n: usize = s.len();
    let mut neg: bool = false;
    let mut i: usize = 0;
    if 0 < n && (s[0] == 43 || s[0] == 45) {
        neg = s[0] == 45;
        i = 1;
    }
    let ghost body = s@.skip(i as int);
    proof {
        if n > 0 {
            assert(t[0] == s@[0]);
        }
        if n > 0 && (s@[0] == 43 || s@[0] == 45) {
            assert(t.drop_first() =~= body);
        } else {
            assert(s@.skip(0) =~= s@);
        }
    }
    if i == n {
        return None;
    }
    proof {
        assert(body.len() > 0);
        assert(spec_dec(t, max as int) == parse_dec_digits(body, 0, neg, max as int));
    }
    let mut acc: u32 = 0;
    let mut j: usize = i;
    while j < n
        invariant
            i <= j <= n == s@.len(),
            t == s@,
            body == s@.skip(i as int),
            acc <= max,
            parse_dec_digits(s@.skip(j as int), acc as int, neg, max as int) == parse_dec_digits(
                body,
                0,
                neg,
                max as int,
            ),
            spec_dec(t, max as int) == parse_dec_digits(body, 0, neg, max as int),
            neg ==> acc == 0,
        decreases n - j,
    {
        let c = s[j];
        proof {
            assert(s@.skip(j as int)[0] == s@[j as int]);
            assert(s@.skip(j as int).drop_first() =~= s@.skip(j + 1));
        }
        if !(48 <= c && c <= 57) {
            return None;
        }
        if neg {
            if c != 48 {
                return None;
            }
        } else {
            let wide: u64 = (acc as u64) * 10 + ((c - 48) as u64);
            if wide > (max as u64) {
                return None;
            }
            acc = wide as u32;
        }
        j = j + 1;
    }
    proof {
        assert(s@.skip(n as int) =~= Seq::<u8>::empty());
    }
    Some(acc)
}

/// The encoding of text into a fixed-width buffer without the space
/// prefix: truncate to one less than the width, zero-fill the rest.
pub open spec fn clipped_field(s: Seq<u8>, w: nat) -> Seq<u8>
    recommends
        w >= 1,
{
    let keep = if s.len() <= w - 1 {
        s.len() as int
    } else {
        w - 1
    };
    s.take(keep) + zeros((w - keep) as nat)
}

/// Encode text into a fixed-width buffer of `width` bytes: truncated to
/// `width - 1` bytes and zero-filled, so a terminator always remains.
pub fn encode_clipped_field(s: &Vec<u8>, width: usize) -> (r: Vec<u8>)
    requires
        width >= 1,
    ensures
        r@ =~= clipped_field(s@, width as nat),
        r@.len() == width,
{
    let keep: usize = if s.len() <= width - 1 {
        s.len()
    } else {
        width - 1
    };
    let mut out = crate::bytes::read_bytes(s.as_slice(), 0, keep);
    crate::bytes::push_zeros(&mut out, width - keep);
    out
}

/// Round trip of the clipped codec: text that fits the buffer with room
/// for the terminator, holding no zero byte, decodes back to itself.
pub proof fn lemma_clipped_field_roundtrip(s: Seq<u8>, w: nat)
    requires
        w >= 1,
        s.len() <= w - 1,
        forall|i: int| 0 <= i < s.len() ==> s[i] != 0,
    ensures
        fixed_str(clipped_field(s, w)) == Some(s),
{
    let b = clipped_field(s, w);
    assert(s.take(s.len() as int) =~= s);
    assert(b =~= s + zeros((w - s.len()) as nat));
    assert(b[s.len() as int] == 0);
    lemma_first_nul_at(b, s.len() as int);
    assert(b.take(s.len() as int) =~= s);
}

// ---------------------------------------------------------------------------
// Splitting and trimming
// ---------------------------------------------------------------------------

/// ASCII whitespace, as the line formats use it.
pub open spec fn is_space(c: u8) -> bool {
    c == 32 || (9 <= c <= 13)
}

/// Index of the first occurrence of `c` in `s`, if any.
pub open spec fn find_byte(s: Seq<u8>, c: u8) -> Option<int>
    decreases s.len(),
{
    if s.len() == 0 {
        None
    } else if s[0] == c {
        Some(0int)
    } else {
        match find_byte(s.drop_first(), c) {
            Some(i) => Some(i + 1),
            None => None,
        }
    }
}

/// `find_byte` returns the least index holding `c`, and `None` exactly
/// when `c` does not occur.
pub proof fn lemma_find_byte(s: Seq<u8>, c: u8)
    ensures
        match find_byte(s, c) {
            Some(i) => 0 <= i < s.len() && s[i] == c && forall|j: int| 0 <= j < i ==> s[j] != c,
            None => forall|j: int| 0 <= j < s.len() ==> s[j] != c,
        },
    decreases s.len(),
{
    if s.len() > 0 && s[0] != c {
        lemma_find_byte(s.drop_first(), c);
        match find_byte(s.drop_first(), c) {
            Some(i) => {
                assert(s.drop_first()[i] == c);
                assert forall|j: int| 0 <= j < i + 1 implies s[j] != c by {
                    if j > 0 {
                        assert(s.drop_first()[j - 1] != c);
                    }
                }
            },
            None => {
                assert forall|j: int| 0 <= j < s.len() implies s[j] != c by {
                    if j > 0 {
                        assert(s.drop_first()[j - 1] != c);
                    }
                }
            },
        }
    }
}

/// If nothing before `i` is `c` and `s[i]` is `c`, then `i` is the first
/// occurrence.
pub proof fn lemma_find_byte_at(s: Seq<u8>, c: u8, i: int)
    requires
        0 <= i < s.len(),
        s[i] == c,
        forall|j: int| 0 <= j < i ==> s[j] != c,
    ensures
        find_byte(s, c) == Some(i),
{
    lemma_find_byte(s, c);
    match find_byte(s, c) {
        Some(k) => {
            if k < i {
                assert(s[k] != c);
            }
            if k > i {
                assert(s[i] != c);
            }
        },
        None => {
            assert(s[i] != c);
        },
    }
}

/// If no byte of `s` is `c`, `find_byte` reports its absence.
pub proof fn lemma_find_byte_none(s: Seq<u8>, c: u8)
    requires
        forall|j: int| 0 <= j < s.len() ==> s[j] != c,
    ensures
        find_byte(s, c) is None,
{
    lemma_find_byte(s, c);
    match find_byte(s, c) {
        Some(k) => {
            assert(s[k] != c);
        },
        None => {},
    }
}

/// The segments of `s` between occurrences of `c`: always one more
/// segment than separators, with empty segments kept.
pub open spec fn split_on(s: Seq<u8>, c: u8) -> Seq<Seq<u8>>
    decreases s.len(),
{
    match find_byte(s, c) {
        None => seq![s],
        Some(i) => if 0 <= i < s.len() {
            seq![s.take(i)] + split_on(s.skip(i + 1), c)
        } else {
            seq![s]
        },
    }
}

/// Splitting yields at least one segment.
pub proof fn lemma_split_on_len(s: Seq<u8>, c: u8)
    ensures
        split_on(s, c).len() >= 1,
    decreases s.len(),
{
    lemma_find_byte(s, c);
    match find_byte(s, c) {
        None => {},
        Some(i) => {
            if 0 <= i < s.len() {
                lemma_split_on_len(s.skip(i + 1), c);
            }
        },
    }
}

/// Split `s` at every occurrence of `c`.
pub fn split_all(s: &Vec<u8>, c: u8) -> (r: Vec<Vec<u8>>)
    ensures
        r.deep_view() =~~= split_on(s@, c),
{
    let n: usize = s.len();
    let mut fields: Vec<Vec<u8>> = Vec::new();
    proof {
        assert(s@.skip(0) =~= s@);
        assert(fields.deep_view() =~~= Seq::<Seq<u8>>::empty());
    }
    let mut start: usize = 0;
    let mut j: usize = 0;
    while j < n
        invariant
            start <= j <= n == s@.len(),
            split_on(s@, c) =~~= fields.deep_view() + split_on(s@.skip(start as int), c),
            forall|k: int| start <= k < j ==> s@[k] != c,
        decreases n - j,
    {
        if s[j] == c {
            let field = crate::bytes::read_bytes(s.as_slice(), start, j - start);
            let ghost prev = fields.deep_view();
            proof {
                let u = s@.skip(start as int);
                assert forall|k: int| 0 <= k < j - start implies u[k] != c by {
                    assert(u[k] == s@[start + k]);
                }
                assert(u[j - start] == s@[j as int]);
                lemma_find_byte_at(u, c, j - start);
                assert(u.take(j - start) =~= s@.subrange(start as int, j as int));
                assert(u.skip(j - start + 1) =~= s@.skip(j + 1));
                assert(split_on(u, c) =~~= seq![field@] + split_on(s@.skip(j + 1), c));
            }
            fields.push(field);
            proof {
                assert(fields.deep_view() =~~= prev.push(field@));
                assert(prev.push(field@) + split_on(s@.skip(j + 1), c) =~~= prev + (seq![field@]
                    + split_on(s@.skip(j + 1), c)));
            }
            start = j + 1;
        }
        j = j + 1;
    }
    let field = crate::bytes::read_bytes(s.as_slice(), start, n - start);
    let ghost prev = fields.deep_view();
    proof {
        let u = s@.skip(start as int);
        assert forall|k: int| 0 <= k < u.len() implies u[k] != c by {
            assert(u[k] == s@[start + k]);
        }
        lemma_find_byte_none(u, c);
        assert(u =~= s@.subrange(start as int, n as int));
        assert(field@ =~= u);
        assert(split_on(u, c) =~~= seq![field@]);
    }
    fields.push(field);
    proof {
        assert(fields.deep_view() =~~= prev.push(field@));
        assert(prev.push(field@) =~~= prev + seq![field@]);
        assert(fields.deep_view() =~~= split_on(s@, c));
    }
    fields
}

/// Index of the first whitespace byte of `s`, if any.
pub open spec fn find_space(s: Seq<u8>) -> Option<int>
    decreases s.len(),
{
    if s.len() == 0 {
        None
    } else if is_space(s[0]) {
        Some(0int)
    } else {
        match find_space(s.drop_first()) {
            Some(i) => Some(i + 1),
            None => None,
        }
    }
}

/// `find_space` returns the least whitespace index, and `None` exactly
/// when no byte is whitespace.
pub proof fn lemma_find_space(s: Seq<u8>)
    ensures
        match find_space(s) {
            Some(i) => 0 <= i < s.len() && is_space(s[i]) && forall|j: int|
                0 <= j < i ==> !is_space(s[j]),
            None => forall|j: int| 0 <= j < s.len() ==> !is_space(s[j]),
        },
    decreases s.len(),
{
    if s.len() > 0 && !is_space(s[0]) {
        lemma_find_space(s.drop_first());
        match find_space(s.drop_first()) {
            Some(i) => {
                assert(is_space(s.drop_first()[i]));
                assert forall|j: int| 0 <= j < i + 1 implies !is_space(s[j]) by {
                    if j > 0 {
                        assert(!is_space(s.drop_first()[j - 1]));
                    }
                }
            },
            None => {
                assert forall|j: int| 0 <= j < s.len() implies !is_space(s[j]) by {
                    if j > 0 {
                        assert(!is_space(s.drop_first()[j - 1]));
                    }
                }
            },
        }
    }
}

/// If nothing before `i` is whitespace and `s[i]` is, then `i` is the
/// first whitespace byte.
proof fn lemma_find_space_at(s: Seq<u8>, i: int)
    requires
        0 <= i < s.len(),
        is_space(s[i]),
        forall|j: int| 0 <= j < i ==> !is_space(s[j]),
    ensures
        find_space(s) == Some(i),
{
    lemma_find_space(s);
    match find_space(s) {
        Some(k) => {
            if k < i {
                assert(!is_space(s[k]));
            }
            if k > i {
                assert(!is_space(s[i]));
            }
        },
        None => {
            assert(!is_space(s[i]));
        },
    }
}

/// If no byte of `s` is whitespace, `find_space` reports its absence.
proof fn lemma_find_space_none(s: Seq<u8>)
    requires
        forall|j: int| 0 <= j < s.len() ==> !is_space(s[j]),
    ensures
        find_space(s) is None,
{
    lemma_find_space(s);
    match find_space(s) {
        Some(k) => {
            assert(!is_space(s[k]));
        },
        None => {},
    }
}

/// The maximal whitespace-free runs of `s`, in order, with whitespace
/// between and around them discarded.
pub open spec fn tokens(s: Seq<u8>) -> Seq<Seq<u8>>
    decreases s.len(),
{
    if s.len() == 0 {
        Seq::empty()
    } else if is_space(s[0]) {
        tokens(s.drop_first())
    } else {
        match find_space(s) {
            None => seq![s],
            Some(i) => if 1 <= i < s.len() {
                seq![s.take(i)] + tokens(s.skip(i))
            } else {
                seq![s]
            },
        }
    }
}

/// Split `s` into its whitespace-separated tokens.
pub fn split_tokens(s: &Vec<u8>) -> (r: Vec<Vec<u8>>)
    ensures
        r.deep_view() =~~= tokens(s@),
{
    let n: usize = s.len();
    let mut toks: Vec<Vec<u8>> = Vec::new();
    proof {
        assert(s@.skip(0) =~= s@);
        assert(toks.deep_view() =~~= Seq::<Seq<u8>>::empty());
    }
    let mut pos: usize = 0;
    while pos < n
        invariant
            pos <= n == s@.len(),
            tokens(s@) =~~= toks.deep_view() + tokens(s@.skip(pos as int)),
        decreases n - pos,
    {
        if is_space_byte(s[pos]) {
            proof {
                assert(s@.skip(pos as int)[0] == s@[pos as int]);
                assert(s@.skip(pos as int).drop_first() =~= s@.skip(pos + 1));
            }
            pos = pos + 1;
        } else {
            let mut j: usize = pos + 1;
            while j < n && !is_space_byte(s[j])
                invariant
                    pos < j <= n == s@.len(),
                    forall|k: int| pos <= k < j ==> !is_space(s@[k]),
                decreases n - j,
            {
                j = j + 1;
            }
            let tok = crate::bytes::read_bytes(s.as_slice(), pos, j - pos);
            let ghost prev = toks.deep_view();
            proof {
                let u = s@.skip(pos as int);
                assert(!is_space(u[0]));
                assert forall|k: int| 0 <= k < j - pos implies !is_space(u[k]) by {
                    assert(u[k] == s@[pos + k]);
                }
                assert(tok@ =~= u.take(j - pos));
                if j < n {
                    assert(u[j - pos] == s@[j as int]);
                    lemma_find_space_at(u, j - pos);
                    assert(u.skip(j - pos) =~= s@.skip(j as int));
                    assert(tokens(u) =~~= seq![tok@] + tokens(s@.skip(j as int)));
                } else {
                    lemma_find_space_none(u);
                    assert(tok@ =~= u);
                    assert(tokens(u) =~~= seq![tok@]);
                    assert(s@.skip(j as int) =~= Seq::<u8>::empty());
                    assert(tokens(s@.skip(j as int)) =~~= Seq::<Seq<u8>>::empty());
                }
            }
            toks.push(tok);
            proof {
                assert(toks.deep_view() =~~= prev.push(tok@));
                assert(prev.push(tok@) + tokens(s@.skip(j as int)) =~~= prev + (seq![tok@]
                    + tokens(s@.skip(j as int))));
            }
            pos = j;
        }
    }
    proof {
        assert(s@.skip(n as int) =~= Seq::<u8>::empty());
    }
    toks
}

/// `s` without its leading whitespace.
pub open spec fn trim_start(s: Seq<u8>) -> Seq<u8>
    decreases s.len(),
{
    if s.len() > 0 && is_space(s[0]) {
        trim_start(s.drop_first())
    } else {
        s
    }
}

/// `s` without its trailing whitespace.
pub open spec fn trim_end(s: Seq<u8>) -> Seq<u8>
    decreases s.len(),
{
    if s.len() > 0 && is_space(s.last()) {
        trim_end(s.drop_last())
    } else {
        s
    }
}

/// `s` without leading and trailing whitespace.
pub open spec fn trim_spaces(s: Seq<u8>) -> Seq<u8> {
    trim_end(trim_start(s))
}

fn is_space_byte(c: u8) -> (r: bool)
    ensures
        r == is_space(c),
{
    c == 32 || (9 <= c && c <= 13)
}

/// Drop leading and trailing ASCII whitespace.
pub fn trim_ascii(s: &Vec<u8>) -> (r: Vec<u8>)
    ensures
        r@ =~= trim_spaces(s@),
{
    let n: usize = s.len();
    proof {
        assert(s@.skip(0) =~= s@);
    }
    let mut a: usize = 0;
    while a < n && is_space_byte(s[a])
        invariant
            a <= n == s@.len(),
            trim_start(s@.skip(a as int)) == trim_start(s@),
        decreases n - a,
    {
        proof {
            assert(s@.skip(a as int)[0] == s@[a as int]);
            assert(s@.skip(a as int).drop_first() =~= s@.skip(a + 1));
        }
        a = a + 1;
    }
    proof {
        if a < n {
            assert(s@.skip(a as int)[0] == s@[a as int]);
        }
        assert(trim_start(s@) == s@.skip(a as int));
    }
    let ghost u = s@.skip(a as int);
    proof {
        assert(u.take(n - a) =~= u);
    }
    let mut b: usize = n;
    while b > a && is_space_byte(s[b - 1])
        invariant
            a <= b <= n == s@.len(),
            u == s@.skip(a as int),
            trim_end(u.take(b - a)) == trim_end(u),
        decreases b,
    {
        proof {
            assert(u.take(b - a).last() == s@[b - 1]);
            assert(u.take(b - a).drop_last() =~= u.take(b - a - 1));
        }
        b = b - 1;
    }
    proof {
        if b > a {
            assert(u.take(b - a).last() == s@[b - 1]);
        }
        assert(trim_end(u) == u.take(b - a));
    }
    let r = crate::bytes::read_bytes(s.as_slice(), a, b - a);
    proof {
        assert(r@ =~= u.take(b - a));
    }
    r
}

/// Text with no whitespace at either end is its own trim.
pub proof fn lemma_trim_noop(s: Seq<u8>)
    requires
        s.len() > 0 ==> !is_space(s[0]) && !is_space(s.last()),
    ensures
        trim_spaces(s) == s,
{
    assert(trim_start(s) == s);
    assert(trim_end(s) == s);
}

/// Splitting a separator-free segment yields the segment alone.
pub proof fn lemma_split_single(a: Seq<u8>, c: u8)
    requires
        forall|j: int| 0 <= j < a.len() ==> a[j] != c,
    ensures
        split_on(a, c) == seq![a],
{
    lemma_find_byte_none(a, c);
}

/// Splitting at the first separator peels off the leading segment.
pub proof fn lemma_split_join(a: Seq<u8>, b: Seq<u8>, c: u8)
    requires
        forall|j: int| 0 <= j < a.len() ==> a[j] != c,
    ensures
        split_on(a + seq![c] + b, c) == seq![a] + split_on(b, c),
{
    let t = a + seq![c] + b;
    assert(t[a.len() as int] == c);
    assert forall|j: int| 0 <= j < a.len() implies t[j] != c by {
        assert(t[j] == a[j]);
    }
    lemma_find_byte_at(t, c, a.len() as int);
    assert(t.take(a.len() as int) =~= a);
    assert(t.skip(a.len() as int + 1) =~= b);
}

/// Whether a byte can stand inside a rendered hex field: a digit, a
/// lowercase hex letter, or the `x` of the prefix. None of these is a
/// comma, a newline, or whitespace.
pub open spec fn is_hex_text_byte(c: u8) -> bool {
    (48 <= c <= 57) || (97 <= c <= 102) || c == 120
}

/// Every byte of a rendered field is hex text.
pub proof fn lemma_hex10_bytes(v: u32)
    ensures
        forall|j: int| 0 <= j < hex10(v).len() ==> is_hex_text_byte(#[trigger] hex10(v)[j]),
        hex10(v).len() == 10,
{
    let h = hex10(v);
    let d = hex8(v);
    assert(((v >> 28) & 0xf) < 16 && ((v >> 24) & 0xf) < 16 && ((v >> 20) & 0xf) < 16 && ((v
        >> 16) & 0xf) < 16 && ((v >> 12) & 0xf) < 16 && ((v >> 8) & 0xf) < 16 && ((v >> 4) & 0xf)
        < 16 && (v & 0xf) < 16 && (v >> 0) & 0xf == v & 0xf) by (bit_vector);
    assert(d[0] == hex_digit(((v >> 28) & 0xf) as int) && is_hex_text_byte(d[0]));
    assert(d[1] == hex_digit(((v >> 24) & 0xf) as int) && is_hex_text_byte(d[1]));
    assert(d[2] == hex_digit(((v >> 20) & 0xf) as int) && is_hex_text_byte(d[2]));
    assert(d[3] == hex_digit(((v >> 16) & 0xf) as int) && is_hex_text_byte(d[3]));
    assert(d[4] == hex_digit(((v >> 12) & 0xf) as int) && is_hex_text_byte(d[4]));
    assert(d[5] == hex_digit(((v >> 8) & 0xf) as int) && is_hex_text_byte(d[5]));
    assert(d[6] == hex_digit(((v >> 4) & 0xf) as int) && is_hex_text_byte(d[6]));
    assert(d[7] == hex_digit((v & 0xf) as int) && is_hex_text_byte(d[7]));
    assert forall|j: int| 0 <= j < h.len() implies is_hex_text_byte(#[trigger] h[j]) by {
        if j >= 2 {
            assert(h[j] == d[j - 2]);
        }
    }
}

} // verus!
