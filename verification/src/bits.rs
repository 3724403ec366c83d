//! Bitwise arithmetic exercises: a ripple-carry adder, a shift-and-add
//! multiplier, and the Gray code with its inverse.
use vstd::prelude::*;

verus! {

/// Adds two machine words with ripple-carry bit arithmetic, wrapping on
/// overflow exactly as two's-complement addition does.
pub fn adder(a: u32, b: u32) -> (r: u32)
    ensures
        r == (a + b) % 0x1_0000_0000,
{
    let mut newbit: u64;
    let mut carry: u64 = 0;
    let mut result: u64 = 0;
    let mut aa: u64 = a as u64;
    let mut bb: u64 = b as u64;
    let au: u64 = a as u64;
    let bu: u64 = b as u64;
    let mut k: u64 = 0;
    proof {
        assert(au >> 0u64 == au && bu >> 0u64 == bu && ((au & ((1u64 << 0u64) - 1) as u64) + (bu
            & ((1u64 << 0u64) - 1) as u64)) as u64 >> 0u64 == 0u64 && ((((au + bu) as u64) & ((1u64
            << 0u64) - 1) as u64) << ((32 - 0u64) as u64)) & 0xFFFF_FFFFu64 == 0u64)
            by (bit_vector);
    }
    while k < 32
        invariant
            k <= 32,
            aa == au >> k,
            bb == bu >> k,
            carry == ((au & ((1u64 << k) - 1) as u64) + (bu & ((1u64 << k) - 1) as u64)) as u64
                >> k,
            result == ((((au + bu) as u64) & ((1u64 << k) - 1) as u64) << ((32 - k) as u64))
                & 0xFFFF_FFFFu64,
            au == a as u64,
            bu == b as u64,
        decreases 32 - k,
    {
        newbit = (carry ^ aa ^ bb) & 1;
        carry = if (aa ^ bb) & 1 != 0 {
            newbit ^ 1
        } else {
            aa & bb & 1
        };
        result = (result >> 1) | (newbit << 31);
        aa = aa >> 1;
        bb = bb >> 1;
        proof {
            lemma_adder_step(au, bu, k);
        }
        k = k + 1;
    }
    proof {
        assert(au <= 0xFFFF_FFFFu64 && bu <= 0xFFFF_FFFFu64 ==> ((((au + bu) as u64) & ((1u64
            << 32u64) - 1) as u64) << ((32 - 32u64) as u64)) & 0xFFFF_FFFFu64 == ((au + bu) as u64)
            % 0x1_0000_0000u64) by (bit_vector);
    }
    result as u32
}

/// One ripple-carry step: the running carry and the partial result keep their
/// meaning when one more bit of the operands is consumed.
proof fn lemma_adder_step(au: u64, bu: u64, k: u64)
    requires
        k < 32,
        au <= 0xFFFF_FFFF,
        bu <= 0xFFFF_FFFF,
    ensures
        ({
            let av = au >> k;
            let bv = bu >> k;
            let m = ((1u64 << k) - 1) as u64;
            let m2 = ((1u64 << ((k + 1) as u64)) - 1) as u64;
            let s = (au + bu) as u64;
            let c = ((au & m) + (bu & m)) as u64 >> k;
            let r = ((s & m) << ((32 - k) as u64)) & 0xFFFF_FFFFu64;
            let nb = (c ^ av ^ bv) & 1;
            let c2 = if (av ^ bv) & 1 != 0 {
                nb ^ 1
            } else {
                av & bv & 1
            };
            &&& av >> 1 == au >> ((k + 1) as u64)
            &&& bv >> 1 == bu >> ((k + 1) as u64)
            &&& c2 == ((au & m2) + (bu & m2)) as u64 >> ((k + 1) as u64)
            &&& ((r >> 1) | (nb << 31)) == ((s & m2) << ((32 - (k + 1)) as u64)) & 0xFFFF_FFFFu64
        }),
{
    assert(({
        let av = au >> k;
        let bv = bu >> k;
        let m = ((1u64 << k) - 1) as u64;
        let m2 = ((1u64 << ((k + 1) as u64)) - 1) as u64;
        let s = (au + bu) as u64;
        let c = ((au & m) + (bu & m)) as u64 >> k;
        let r = ((s & m) << ((32 - k) as u64)) & 0xFFFF_FFFFu64;
        let nb = (c ^ av ^ bv) & 1;
        let c2 = if (av ^ bv) & 1 != 0 {
            nb ^ 1
        } else {
            av & bv & 1
        };
        (k < 32 && au <= 0xFFFF_FFFF && bu <= 0xFFFF_FFFF) ==> {
            &&& av >> 1 == au >> ((k + 1) as u64)
            &&& bv >> 1 == bu >> ((k + 1) as u64)
            &&& c2 == ((au & m2) + (bu & m2)) as u64 >> ((k + 1) as u64)
            &&& ((r >> 1) | (nb << 31)) == ((s & m2) << ((32 - (k + 1)) as u64)) & 0xFFFF_FFFFu64
        }
    })) by (bit_vector);
}

/// Multiplies two machine words by shifting and adding, wrapping on overflow
/// exactly as two's-complement multiplication does.
pub fn multiplier(a: u32, b: u32) -> (r: u32)
    ensures
        r == (a * b) % 0x1_0000_0000,
{
    let mut result: u32 = 0;
    let mut aa: u32 = a;
    let mut bb: u32 = b;
    while aa != 0
        invariant
            (result + aa * bb) % 0x1_0000_0000 == (a * b) % 0x1_0000_0000,
        decreases aa,
    {
        let ghost r0: u32 = result;
        let ghost aold: u32 = aa;
        let ghost bold: u32 = bb;
        let took = (aa & 1) != 0;
        if took {
            result = adder(result, bb);
        }
        bb = bb << 1;
        aa = aa >> 1;
        proof {
            let m: int = 0x1_0000_0000;
            assert(bold << 1u32 == ((bold * 2) % 0x1_0000_0000) as u32 && aold >> 1u32 == (aold
                / 2) as u32 && ((aold & 1 != 0) == (aold % 2 == 1))) by (bit_vector);
            assert(bb == (2 * bold) % m);
            if aold % 2 == 1 {
                assert(result == (r0 + bold) % m);
                lemma_mul_step_odd(r0 as int, aold as int, bold as int, m);
            } else {
                lemma_mul_step_even(r0 as int, aold as int, bold as int, m);
            }
        }
    }
    result
}

/// Shift-and-add step for an odd multiplier bit, modulo the word size.
proof fn lemma_mul_step_odd(r0: int, a0: int, b0: int, m: int)
    requires
        m == 0x1_0000_0000,
        a0 % 2 == 1,
        0 <= r0,
        0 <= b0,
        1 <= a0,
    ensures
        (((r0 + b0) % m) + (a0 / 2) * ((2 * b0) % m)) % m == (r0 + a0 * b0) % m,
{
    let h = a0 / 2;
    assert(a0 == 2 * h + 1);
    vstd::arithmetic::div_mod::lemma_mul_mod_noop_general(h, 2 * b0, m);
    vstd::arithmetic::div_mod::lemma_add_mod_noop((r0 + b0) % m, h * ((2 * b0) % m), m);
    vstd::arithmetic::div_mod::lemma_mod_twice(r0 + b0, m);
    vstd::arithmetic::div_mod::lemma_add_mod_noop(r0 + b0, h * (2 * b0), m);
    assert(h * (2 * b0) == 2 * h * b0) by (nonlinear_arith);
    assert(r0 + b0 + 2 * h * b0 == r0 + a0 * b0) by (nonlinear_arith)
        requires
            a0 == 2 * h + 1,
    ;
    assert((((r0 + b0) % m) + h * ((2 * b0) % m)) % m == (((r0 + b0) % m) + (h * ((2 * b0) % m))
        % m) % m) by {
        vstd::arithmetic::div_mod::lemma_add_mod_noop((r0 + b0) % m, h * ((2 * b0) % m), m);
        vstd::arithmetic::div_mod::lemma_mod_twice((r0 + b0) % m + (h * ((2 * b0) % m)) % m, m);
    }
}

/// Shift-and-add step for an even multiplier bit, modulo the word size.
proof fn lemma_mul_step_even(r0: int, a0: int, b0: int, m: int)
    requires
        m == 0x1_0000_0000,
        a0 % 2 == 0,
        0 <= r0,
        0 <= b0,
        0 <= a0,
    ensures
        (r0 + (a0 / 2) * ((2 * b0) % m)) % m == (r0 + a0 * b0) % m,
{
    let h = a0 / 2;
    assert(a0 == 2 * h);
    vstd::arithmetic::div_mod::lemma_mul_mod_noop_general(h, 2 * b0, m);
    vstd::arithmetic::div_mod::lemma_add_mod_noop(r0, h * ((2 * b0) % m), m);
    vstd::arithmetic::div_mod::lemma_add_mod_noop(r0, h * (2 * b0), m);
    assert(h * (2 * b0) == a0 * b0) by (nonlinear_arith)
        requires
            a0 == 2 * h,
    ;
    assert((r0 + h * ((2 * b0) % m)) % m == (r0 + (h * ((2 * b0) % m)) % m) % m) by {
        vstd::arithmetic::div_mod::lemma_add_mod_noop(r0, h * ((2 * b0) % m), m);
        vstd::arithmetic::div_mod::lemma_mod_twice(r0 + (h * ((2 * b0) % m)) % m, m);
    }
}

/// The Gray code of `n`: each output bit is the exclusive or of two
/// neighbouring input bits.
pub fn gray_code(n: u32) -> (r: u32)
    ensures
        r == n ^ (n >> 1u32),
{
    n ^ (n >> 1)
}

/// The exclusive or of all right shifts of `g`: `g ^ (g >> 1) ^ (g >> 2) ^ ...`.
/// This is the inverse of the Gray code.
pub open spec fn xor_shifts(g: u32) -> u32
    decreases g via xor_shifts_decreases
{
    if g == 0 {
        0u32
    } else {
        g ^ xor_shifts(g >> 1u32)
    }
}

#[via_fn]
proof fn xor_shifts_decreases(g: u32) {
    assert(g != 0 ==> (g >> 1u32) < g) by (bit_vector);
}

/// Decodes a Gray code: the result, fed back through `gray_code`, gives the
/// input again.
pub fn reverse_gray_code(gray: u32) -> (r: u32)
    ensures
        r == xor_shifts(gray),
        (r ^ (r >> 1u32)) == gray,
{
    let mut mask = gray;
    let mut out = gray;
    proof {
        assert(0u32 >> 1u32 == 0u32 && 0u32 ^ 0u32 == 0u32) by (bit_vector);
    }
    while mask != 0
        invariant
            xor_shifts(gray) == out ^ xor_shifts(mask >> 1u32),
        decreases mask,
    {
        proof {
            assert(mask != 0 ==> (mask >> 1u32) < mask) by (bit_vector);
        }
        mask = mask >> 1;
        out = out ^ mask;
        proof {
            assert(0u32 >> 1u32 == 0u32) by (bit_vector);
            assert(forall|x: u32| #![auto] x ^ 0u32 == x) by (bit_vector);
            assert(forall|o: u32, m: u32, h: u32| #![auto] o ^ (m ^ h) == (o ^ m) ^ h)
                by (bit_vector);
        }
    }
    proof {
        assert(0u32 >> 1u32 == 0u32) by (bit_vector);
        assert(forall|x: u32| #![auto] x ^ 0u32 == x) by (bit_vector);
        lemma_gray_of_xor_shifts(gray);
    }
    out
}

/// Applying the Gray code to the decoded value gives the original back.
proof fn lemma_gray_of_xor_shifts(g: u32)
    ensures
        xor_shifts(g) ^ (xor_shifts(g) >> 1u32) == g,
    decreases g,
{
    if g == 0 {
        assert(0u32 ^ (0u32 >> 1u32) == 0u32) by (bit_vector);
    } else {
        assert(g != 0 ==> (g >> 1u32) < g) by (bit_vector);
        lemma_gray_of_xor_shifts(g >> 1);
        let h = xor_shifts(g >> 1);
        assert(xor_shifts(g) == g ^ h);
        // (g ^ h) >> 1 == (g >> 1) ^ (h >> 1), and h ^ (h >> 1) == g >> 1.
        assert(h ^ (h >> 1u32) == g >> 1u32 ==> (g ^ h) ^ ((g ^ h) >> 1u32) == g)
            by (bit_vector);
    }
}

} // verus!
