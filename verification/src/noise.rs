use vstd::prelude::*;

verus! {

/// The 32 bits that the terrain noise hashes the lattice point `(x, y)` to:
/// a multiply-and-add of the coordinates, then two xor-shift-multiply
/// rounds, all in wrapping `i32` arithmetic, read as unsigned at the end.
pub open spec fn spec_hash_bits(x: i32, y: i32) -> u32 {
    let n0 = x.wrapping_mul(374761393i32).wrapping_add(y.wrapping_mul(668265263i32));
    let n1 = (n0 ^ (n0 >> 13u32)).wrapping_mul(1274126177i32);
    (n1 ^ (n1 >> 16u32)) as u32
}

/// The signed 32-bit number congruent to `v` modulo 2^32.
pub open spec fn wrap_i32(v: int) -> int {
    let m = v % 0x1_0000_0000;
    if m >= 0x8000_0000 {
        m - 0x1_0000_0000
    } else {
        m
    }
}

proof fn lemma_wrap_range(v: int)
    ensures
        i32::MIN <= wrap_i32(v) <= i32::MAX,
{
    vstd::arithmetic::div_mod::lemma_mod_bound(v, 0x1_0000_0000);
}

proof fn lemma_wrap_id(v: int)
    requires
        i32::MIN <= v <= i32::MAX,
    ensures
        wrap_i32(v) == v,
{
    if v >= 0 {
        vstd::arithmetic::div_mod::lemma_fundamental_div_mod_converse(v, 0x1_0000_0000, 0, v);
    } else {
        vstd::arithmetic::div_mod::lemma_fundamental_div_mod_converse(v, 0x1_0000_0000, -1, v + 0x1_0000_0000);
    }
}

proof fn lemma_wrap_shift(v: int, k: int)
    ensures
        wrap_i32(v + k * 0x1_0000_0000) == wrap_i32(v),
{
    vstd::arithmetic::div_mod::lemma_mod_multiples_vanish(k, v, 0x1_0000_0000);
    assert(0x1_0000_0000 * k + v == v + k * 0x1_0000_0000) by (nonlinear_arith);
}

proof fn lemma_wrap_offset(v: int) -> (k: int)
    ensures
        wrap_i32(v) == v + k * 0x1_0000_0000,
{
    let r: int = 0x1_0000_0000;
    vstd::arithmetic::div_mod::lemma_fundamental_div_mod(v, r);
    let q = v / r;
    assert(v % r == v + (-q) * r) by (nonlinear_arith)
        requires
            v == r * q + v % r,
    ;
    if v % r >= 0x8000_0000 {
        assert(wrap_i32(v) == v + (-q - 1) * r) by (nonlinear_arith)
            requires
                v % r == v + (-q) * r,
                wrap_i32(v) == v % r - r,
        ;
        -q - 1
    } else {
        assert(wrap_i32(v) == v + (-q) * r);
        -q
    }
}

proof fn lemma_wrap_add(p: int, q: int)
    ensures
        wrap_i32(wrap_i32(p) + wrap_i32(q)) == wrap_i32(p + q),
{
    let a = lemma_wrap_offset(p);
    let b = lemma_wrap_offset(q);
    assert(wrap_i32(p) + wrap_i32(q) == (p + q) + (a + b) * 0x1_0000_0000) by (nonlinear_arith)
        requires
            wrap_i32(p) == p + a * 0x1_0000_0000,
            wrap_i32(q) == q + b * 0x1_0000_0000,
    ;
    lemma_wrap_shift(p + q, a + b);
}

proof fn lemma_wrapping_mul_is_wrap(a: i32, c: i32)
    ensures
        a.wrapping_mul(c) as int == wrap_i32(a * c),
{
    lemma_wrap_range(a * c);
}

proof fn lemma_wrapping_add_is_wrap(a: i32, b: i32)
    ensures
        a.wrapping_add(b) as int == wrap_i32(a + b),
{
    let s = a + b;
    if s > i32::MAX {
        lemma_wrap_shift(s - 0x1_0000_0000, 1);
        lemma_wrap_id(s - 0x1_0000_0000);
    } else if s < i32::MIN {
        lemma_wrap_shift(s + 0x1_0000_0000, -1);
        lemma_wrap_id(s + 0x1_0000_0000);
    } else {
        lemma_wrap_id(s);
    }
}

proof fn lemma_shift_is_floor_div(n: i32, k: u32, d: int)
    requires
        (k == 13 && d == 8192) || (k == 16 && d == 65536),
    ensures
        (n >> k) as int == (n as int) / d,
{
    if k == 13 {
        assert(8192 * (n >> 13u32) <= n && n < 8192 * (n >> 13u32) + 8192) by (bit_vector);
        let q = (n >> 13u32) as int;
        vstd::arithmetic::div_mod::lemma_fundamental_div_mod_converse(n as int, 8192, q, n - 8192 * q);
    } else {
        assert(65536 * (n >> 16u32) <= n && n < 65536 * (n >> 16u32) + 65536) by (bit_vector);
        let q = (n >> 16u32) as int;
        vstd::arithmetic::div_mod::lemma_fundamental_div_mod_converse(n as int, 65536, q, n - 65536 * q);
    }
}

/// The lattice hash in plain integer arithmetic: the linear combination of
/// the coordinates taken modulo 2^32 as a signed number, then two rounds that
/// xor a number with its floor division by 2^13 (then 2^16) and multiply
/// modulo 2^32; the last round is read as unsigned.
pub open spec fn hash_arithmetic(x: int, y: int) -> u32 {
    let n0 = wrap_i32(x * 374761393 + y * 668265263);
    let m0 = ((n0 as i32) ^ ((n0 / 8192) as i32)) as int;
    let n1 = wrap_i32(m0 * 1274126177);
    ((n1 as i32) ^ ((n1 / 65536) as i32)) as u32
}

/// For every `(x, y)`, whatever their signs, the wrapping `i32` hash equals
/// its plain integer form: shifting a signed number right rounds towards
/// minus infinity, and wrapping arithmetic is arithmetic modulo 2^32.
pub proof fn lemma_hash_bits_arithmetic(x: i32, y: i32)
    ensures
        spec_hash_bits(x, y) == hash_arithmetic(x as int, y as int),
{
    let a = x.wrapping_mul(374761393i32);
    let b = y.wrapping_mul(668265263i32);
    lemma_wrapping_mul_is_wrap(x, 374761393i32);
    lemma_wrapping_mul_is_wrap(y, 668265263i32);
    lemma_wrapping_add_is_wrap(a, b);
    lemma_wrap_add(x * 374761393, y * 668265263);
    let e0 = a.wrapping_add(b);
    let n0 = wrap_i32(x * 374761393 + y * 668265263);
    assert(e0 as int == n0);
    lemma_wrap_range(x * 374761393 + y * 668265263);
    lemma_shift_is_floor_div(e0, 13, 8192);
    let t0 = e0 ^ (e0 >> 13u32);
    assert(t0 == (n0 as i32) ^ ((n0 / 8192) as i32));
    lemma_wrapping_mul_is_wrap(t0, 1274126177i32);
    let e1 = t0.wrapping_mul(1274126177i32);
    let n1 = wrap_i32((t0 as int) * 1274126177);
    assert(e1 as int == n1);
    lemma_wrap_range((t0 as int) * 1274126177);
    lemma_shift_is_floor_div(e1, 16, 65536);
    assert(e1 ^ (e1 >> 16u32) == (n1 as i32) ^ ((n1 / 65536) as i32));
}

/// The bits of the lattice hash of `(x, y)`; the noise divides them by
/// `u32::MAX` to get a value in `[0, 1]`.
pub fn hash_bits(x: i32, y: i32) -> (bits: u32)
    ensures
        bits == spec_hash_bits(x, y),
        bits == hash_arithmetic(x as int, y as int),
{
    proof {
        lemma_hash_bits_arithmetic(x, y);
    }
    let mut n = x.wrapping_mul(374761393i32).wrapping_add(y.wrapping_mul(668265263i32));
    n = (n ^ (n >> 13u32)).wrapping_mul(1274126177i32);
    (n ^ (n >> 16u32)) as u32
}

} // verus!
