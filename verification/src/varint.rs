//! Little-endian numbers and the variable-length encoding of `u32`.

use vstd::prelude::*;

verus! {

/// The number whose little-endian bytes are `s`.
pub open spec fn le(s: Seq<u8>) -> nat
    decreases s.len(),
{
    if s.len() == 0 {
        0
    } else {
        s[0] as nat + 256 * le(s.drop_first())
    }
}

/// `256` to the power `n`.
pub open spec fn base256(n: nat) -> nat
    decreases n,
{
    if n == 0 {
        1
    } else {
        256 * base256((n - 1) as nat)
    }
}

pub proof fn lemma_le_bound(s: Seq<u8>)
    ensures
        le(s) < base256(s.len()),
    decreases s.len(),
{
    if s.len() > 0 {
        lemma_le_bound(s.drop_first());
        assert(s.drop_first().len() == s.len() - 1);
    }
}

/// Number of bytes that follow the first byte: its leading one bits.
pub open spec fn extra_bytes(first: u8) -> nat {
    if first < 0x80 {
        0
    } else if first < 0xc0 {
        1
    } else if first < 0xe0 {
        2
    } else if first < 0xf0 {
        3
    } else if first < 0xf8 {
        4
    } else if first < 0xfc {
        5
    } else if first < 0xfe {
        6
    } else if first < 0xff {
        7
    } else {
        8
    }
}

/// What is left of the first byte without its leading one bits.
pub open spec fn leading_part(first: u8) -> nat {
    if first < 0x80 {
        first as nat
    } else if first < 0xc0 {
        (first - 0x80) as nat
    } else if first < 0xe0 {
        (first - 0xc0) as nat
    } else if first < 0xf0 {
        (first - 0xe0) as nat
    } else if first < 0xf8 {
        (first - 0xf0) as nat
    } else if first < 0xfc {
        (first - 0xf8) as nat
    } else if first < 0xfe {
        (first - 0xfc) as nat
    } else {
        0
    }
}

/// The encoded number, whatever its size: the leading part above the bytes that follow.
pub open spec fn var_value(data: Seq<u8>) -> nat {
    let l = extra_bytes(data[0]);
    leading_part(data[0]) * base256(l) + le(data.subrange(1, 1 + l as int))
}

/// The `u32` at the start of `data` and the number of bytes it takes: none where
/// bytes are missing or the number does not fit.
pub open spec fn var_u32(data: Seq<u8>) -> Option<(u32, nat)> {
    if data.len() == 0 || data.len() < 1 + extra_bytes(data[0]) || var_value(data) > u32::MAX {
        None
    } else {
        Some((var_value(data) as u32, 1 + extra_bytes(data[0])))
    }
}

fn prefix_of(first: u8) -> (r: (usize, u64))
    ensures
        r.0 == extra_bytes(first),
        r.1 == leading_part(first),
        r.0 <= 8,
        r.1 < 128,
{
    if first < 0x80 {
        (0, first as u64)
    } else if first < 0xc0 {
        (1, (first - 0x80) as u64)
    } else if first < 0xe0 {
        (2, (first - 0xc0) as u64)
    } else if first < 0xf0 {
        (3, (first - 0xe0) as u64)
    } else if first < 0xf8 {
        (4, (first - 0xf0) as u64)
    } else if first < 0xfc {
        (5, (first - 0xf8) as u64)
    } else if first < 0xfe {
        (6, (first - 0xfc) as u64)
    } else if first < 0xff {
        (7, 0)
    } else {
        (8, 0)
    }
}

/// The number whose little-endian bytes stand at `data[from..to]`.
pub fn read_le(data: &[u8], from: usize, to: usize) -> (v: u128)
    requires
        from <= to <= data@.len(),
        to - from <= 8,
    ensures
        v == le(data@.subrange(from as int, to as int)),
        v < base256((to - from) as nat),
        v < 0x1_0000_0000_0000_0000,
{
    let mut i: usize = to;
    let mut v: u128 = 0;
    proof {
        reveal_with_fuel(base256, 9);
    }
    while i > from
        invariant
            from <= i <= to <= data@.len(),
            to - from <= 8,
            v == le(data@.subrange(i as int, to as int)),
        decreases i,
    {
        i = i - 1;
        proof {
            let s = data@.subrange(i as int, to as int);
            assert(s.drop_first() =~= data@.subrange(i + 1, to as int));
            lemma_le_bound(s.drop_first());
            lemma_base256_step(s.drop_first().len(), 7);
            assert(base256(7) == 0x100_0000_0000_0000) by {
                reveal_with_fuel(base256, 9);
            }
        }
        v = v * 256 + data[i] as u128;
    }
    proof {
        lemma_le_bound(data@.subrange(from as int, to as int));
        lemma_base256_step((to - from) as nat, 8);
        assert(base256(8) == 0x1_0000_0000_0000_0000) by {
            reveal_with_fuel(base256, 10);
        }
    }
    v
}

pub proof fn lemma_base256_step(a: nat, b: nat)
    requires
        a <= b,
    ensures
        1 <= base256(a) <= base256(b),
    decreases b,
{
    if a < b {
        lemma_base256_step(a, (b - 1) as nat);
    } else if a > 0 {
        lemma_base256_step((a - 1) as nat, (a - 1) as nat);
    }
}

/// Decode a variable-length `u32` from the start of `data`.
///
/// Returns the value and the number of bytes read.
pub fn decode_var_u32(data: &[u8]) -> (r: Option<(u32, usize)>)
    ensures
        match r {
            Some((value, len)) => var_u32(data@) == Some((value, len as nat)),
            None => var_u32(data@) is None,
        },
{
    if data.len() == 0 {
        return None;
    }
    let (l, lead) = prefix_of(data[0]);
    if data.len() - 1 < l {
        return None;
    }
    let rest: u128 = read_le(data, 1, 1 + l);
    let scale: u128 = match l {
        0 => 1,
        1 => 0x100,
        2 => 0x1_0000,
        3 => 0x100_0000,
        4 => 0x1_0000_0000,
        5 => 0x100_0000_0000,
        6 => 0x1_0000_0000_0000,
        7 => 0x100_0000_0000_0000,
        _ => 0x1_0000_0000_0000_0000,
    };
    assert(scale == base256(l as nat)) by {
        reveal_with_fuel(base256, 10);
    }
    assert(lead * scale <= 128 * 0x1_0000_0000_0000_0000) by (nonlinear_arith)
        requires
            lead < 128,
            scale <= 0x1_0000_0000_0000_0000,
    ;
    let value: u128 = lead as u128 * scale + rest;
    if value > 0xffff_ffff {
        return None;
    }
    Some((value as u32, 1 + l))
}

/// The `n` little-endian bytes of `v`, its lowest byte first.
pub open spec fn le_bytes(v: nat, n: nat) -> Seq<u8>
    decreases n,
{
    if n == 0 {
        seq![]
    } else {
        seq![(v % 256) as u8] + le_bytes(v / 256, (n - 1) as nat)
    }
}

/// Reading bytes back gives the number that was written: all of it where it fits.
pub proof fn law_bytes_read_back(v: nat, n: nat)
    ensures
        le_bytes(v, n).len() == n,
        le(le_bytes(v, n)) == v % vstd::arithmetic::power2::pow2(8 * n),
        v < vstd::arithmetic::power2::pow2(8 * n) ==> le(le_bytes(v, n)) == v,
    decreases n,
{
    vstd::arithmetic::power2::lemma2_to64();
    if n > 0 {
        let rest = le_bytes(v / 256, (n - 1) as nat);
        law_bytes_read_back(v / 256, (n - 1) as nat);
        assert(le_bytes(v, n).drop_first() =~= rest);
        let p = vstd::arithmetic::power2::pow2((8 * (n - 1)) as nat);
        vstd::arithmetic::power2::lemma_pow2_pos((8 * (n - 1)) as nat);
        vstd::arithmetic::power2::lemma_pow2_adds(8, (8 * (n - 1)) as nat);
        assert(8 + 8 * (n - 1) == 8 * n);
        vstd::arithmetic::div_mod::lemma_mod_breakdown(v as int, 256, p as int);
    }
    if v < vstd::arithmetic::power2::pow2(8 * n) {
        vstd::arithmetic::div_mod::lemma_small_mod(v, vstd::arithmetic::power2::pow2(8 * n));
    }
}

/// The bytes of a number with `l` bytes behind the first one: `l` one bits and a zero
/// bit, the highest bits of the number, and its low bytes.
pub open spec fn var_bytes(v: nat, l: nat) -> Seq<u8> {
    seq![
        (256 - vstd::arithmetic::power2::pow2((8 - l) as nat) + v
            / vstd::arithmetic::power2::pow2(8 * l)) as u8,
    ] + le_bytes(v, l)
}

/// A number written with `l` bytes behind the first one reads back, whatever follows it.
pub proof fn law_variable_length_reads_back(v: u32, l: nat, rest: Seq<u8>)
    requires
        l <= 4,
        v < vstd::arithmetic::power2::pow2(7 * (l + 1)),
    ensures
        var_u32(var_bytes(v as nat, l) + rest) == Some((v, 1 + l)),
{
    let data = var_bytes(v as nat, l) + rest;
    law_bytes_read_back(v as nat, l);
    vstd::arithmetic::power2::lemma2_to64();
    reveal_with_fuel(base256, 6);
    assert(data.subrange(1, 1 + l as int) =~= le_bytes(v as nat, l));
    vstd::arithmetic::power2::lemma_pow2_adds(32, 3);
    let high = v as nat / vstd::arithmetic::power2::pow2(8 * l);
    let low = v as nat % vstd::arithmetic::power2::pow2(8 * l);
    if l == 0 {
        assert(v as nat / 1 == v && v as nat % 1 == 0) by (nonlinear_arith);
        assert(vstd::arithmetic::power2::pow2(8 * l) == 1);
    } else if l == 1 {
        assert(high == v / 0x100 && low == v % 0x100);
        assert(data[0] == 0x80 + v / 0x100);
    } else if l == 2 {
        assert(high == v / 0x1_0000 && low == v % 0x1_0000);
        assert(data[0] == 0xc0 + v / 0x1_0000);
    } else if l == 3 {
        assert(high == v / 0x100_0000 && low == v % 0x100_0000);
        assert(data[0] == 0xe0 + v / 0x100_0000);
    } else {
        assert(v as nat / 0x1_0000_0000 == 0 && v as nat % 0x1_0000_0000 == v);
        assert(vstd::arithmetic::power2::pow2(8 * l) == 0x1_0000_0000);
        assert(data[0] == 0xf0);
    }
    assert(base256(l) == vstd::arithmetic::power2::pow2(8 * l));
    assert(extra_bytes(data[0]) == l);
    assert(leading_part(data[0]) == high);
    vstd::arithmetic::div_mod::lemma_fundamental_div_mod(
        v as int,
        vstd::arithmetic::power2::pow2(8 * l) as int,
    );
    vstd::arithmetic::mul::lemma_mul_is_commutative(high as int, base256(l) as int);
}

} // verus!
