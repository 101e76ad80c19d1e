use vstd::arithmetic::div_mod::{
    lemma_div_denominator, lemma_fundamental_div_mod, lemma_fundamental_div_mod_converse,
};
use vstd::arithmetic::mul::lemma_mul_is_commutative;
use vstd::arithmetic::power2::{
    lemma2_to64, lemma2_to64_rest, lemma_pow2_adds, lemma_pow2_pos, lemma_pow2_strictly_increases, pow2,
};
use vstd::bits::{lemma_u64_pow2_no_overflow, lemma_u64_shl_is_mul};
use vstd::prelude::*;

verus! {

/// The `width`-bit field of `word` whose least significant bit is bit `lsb`,
/// read as an unsigned number.
pub open spec fn field_of(word: nat, width: nat, lsb: nat) -> nat {
    (word / pow2(lsb)) % pow2(width)
}

/// `word` with its `width`-bit field at `lsb` replaced by `v`: the bits above
/// and below the field are kept.
pub open spec fn with_field(word: nat, width: nat, lsb: nat, v: nat) -> nat {
    (word / pow2(lsb + width)) * pow2(lsb + width) + v * pow2(lsb) + word % pow2(lsb)
}

/// `v` can be stored in a `width`-bit unsigned field.
pub open spec fn fits_unsigned(v: int, width: nat) -> bool {
    0 <= v < pow2(width)
}

/// `v` can be stored in a `width`-bit two's-complement field.
pub open spec fn fits_signed(v: int, width: nat) -> bool {
    if width == 0 {
        v == 0
    } else {
        -pow2((width - 1) as nat) <= v < pow2((width - 1) as nat)
    }
}

/// The value of the `width`-bit two's-complement pattern `u`.
pub open spec fn sign_extend(u: nat, width: nat) -> int {
    if width > 0 && u >= pow2((width - 1) as nat) {
        u - pow2(width)
    } else {
        u as int
    }
}

/// The `width`-bit two's-complement pattern of `v`.
pub open spec fn twos_complement(v: int, width: nat) -> nat {
    if v < 0 {
        (v + pow2(width)) as nat
    } else {
        v as nat
    }
}

/// A field layout that stays inside a 64-bit word.
pub open spec fn valid_layout(width: u64, lsb: u64) -> bool {
    width + lsb <= 64
}

/// Splits `word` into the part above the field, the field and the part below it.
pub proof fn lemma_split_field(word: nat, width: nat, lsb: nat)
    ensures
        word == (word / pow2(lsb + width)) * pow2(lsb + width) + field_of(word, width, lsb) * pow2(
            lsb,
        ) + word % pow2(lsb),
        word % pow2(lsb) < pow2(lsb),
{
    let p = pow2(lsb) as int;
    let w = pow2(width) as int;
    lemma_pow2_pos(lsb);
    lemma_pow2_pos(width);
    lemma_pow2_adds(lsb, width);
    let q = word as int / p;
    let f = q % w;
    let hi = q / w;
    lemma_fundamental_div_mod(word as int, p);
    lemma_fundamental_div_mod(q, w);
    lemma_div_denominator(word as int, p, w);
    assert(word == (hi * (p * w)) + f * p + word as int % p) by (nonlinear_arith)
        requires
            word == p * q + word as int % p,
            q == w * hi + f,
    ;
}

/// Reading back a field just written gives what was written, and the parts
/// around it are those of the word.
pub proof fn lemma_field_of_with_field(hi: nat, v: nat, lo: nat, width: nat, lsb: nat)
    requires
        v < pow2(width),
        lo < pow2(lsb),
    ensures
        field_of(hi * pow2(lsb + width) + v * pow2(lsb) + lo, width, lsb) == v,
        (hi * pow2(lsb + width) + v * pow2(lsb) + lo) / pow2(lsb + width) == hi,
        (hi * pow2(lsb + width) + v * pow2(lsb) + lo) % pow2(lsb) == lo,
{
    let p = pow2(lsb) as int;
    let w = pow2(width) as int;
    lemma_pow2_pos(lsb);
    lemma_pow2_pos(width);
    lemma_pow2_adds(lsb, width);
    let x = hi * pow2(lsb + width) + v * pow2(lsb) + lo;
    let q = hi * w + v;
    assert(x == q * p + lo) by (nonlinear_arith)
        requires
            x == hi * (p * w) + v * p + lo,
            q == hi * w + v,
    ;
    lemma_fundamental_div_mod_converse(x as int, p, q, lo as int);
    lemma_fundamental_div_mod_converse(q, w, hi as int, v as int);
    lemma_div_denominator(x as int, p, w);
}

/// A word rebuilt with a field that fits still fits in 64 bits.
pub proof fn lemma_with_field_bound(word: u64, width: nat, lsb: nat, v: nat)
    requires
        width + lsb <= 64,
        v < pow2(width),
    ensures
        with_field(word as nat, width, lsb, v) <= u64::MAX,
{
    let p = pow2(lsb) as int;
    let pw = pow2(lsb + width) as int;
    let k = pow2((64 - lsb - width) as nat) as int;
    lemma_pow2_pos(lsb);
    lemma_pow2_pos(width);
    lemma_pow2_pos(lsb + width);
    lemma_pow2_adds(lsb, width);
    lemma_pow2_adds((64 - lsb - width) as nat, lsb + width);
    lemma2_to64();
    lemma_split_field(word as nat, width, lsb);
    let hi = word as int / pw;
    let lo = word as int % p;
    let f = field_of(word as nat, width, lsb) as int;
    assert(0 <= hi * pw) by (nonlinear_arith)
        requires
            0 <= hi,
            0 < pw,
    ;
    assert(0 <= f * p) by (nonlinear_arith)
        requires
            0 <= f,
            0 < p,
    ;
    assert(hi < k) by (nonlinear_arith)
        requires
            hi * pw <= word,
            word < k * pw,
            0 < pw,
    ;
    assert(hi * pw + v * p + lo < k * pw) by (nonlinear_arith)
        requires
            hi + 1 <= k,
            v + 1 <= pow2(width),
            lo < p,
            pw == p * pow2(width),
            0 < p,
            0 <= v,
    ;
}

/// Writing a field into a word whose bits at and below the field are clear
/// adds the field's value at its place.
pub proof fn lemma_with_field_aligned(hi: nat, width: nat, lsb: nat, v: nat)
    requires
        v < pow2(width),
    ensures
        with_field(hi * pow2(lsb + width), width, lsb, v) == hi * pow2(lsb + width) + v * pow2(
            lsb,
        ),
{
    lemma_pow2_pos(lsb);
    lemma_field_of_with_field(hi, 0, 0, width, lsb);
}

/// Halving facts about the powers of two that bound a `width`-bit field.
proof fn lemma_pow2_half(width: nat)
    requires
        width > 0,
    ensures
        pow2(width) == 2 * pow2((width - 1) as nat),
        pow2((width - 1) as nat) > 0,
{
    let h = (width - 1) as nat;
    lemma_pow2_pos(h);
    lemma_pow2_adds(h, 1);
    lemma2_to64();
}

/// A value that fits a two's-complement field is stored as a pattern of that
/// width, and reading the pattern back gives the value.
pub proof fn lemma_signed_pattern(v: int, width: nat)
    requires
        fits_signed(v, width),
    ensures
        twos_complement(v, width) < pow2(width),
        sign_extend(twos_complement(v, width), width) == v,
{
    lemma_pow2_pos(width);
    if width > 0 {
        lemma_pow2_half(width);
    }
}

/// Reading a `width`-bit pattern as a two's-complement value and storing it
/// again gives the pattern back.
pub proof fn lemma_pattern_signed(u: nat, width: nat)
    requires
        u < pow2(width),
    ensures
        fits_signed(sign_extend(u, width), width),
        twos_complement(sign_extend(u, width), width) == u,
{
    if width > 0 {
        lemma_pow2_half(width);
    } else {
        lemma2_to64();
    }
}

/// A field written into a word reads back as written, whatever the word held,
/// as an unsigned and as a two's-complement field.
pub proof fn lemma_field_round_trip(word: nat, width: nat, lsb: nat, v: int)
    ensures
        fits_unsigned(v, width) ==> field_of(with_field(word, width, lsb, v as nat), width, lsb)
            == v,
        fits_signed(v, width) ==> sign_extend(
            field_of(with_field(word, width, lsb, twos_complement(v, width)), width, lsb),
            width,
        ) == v,
{
    lemma_split_field(word, width, lsb);
    let hi = word / pow2(lsb + width);
    let lo = word % pow2(lsb);
    if fits_unsigned(v, width) {
        lemma_field_of_with_field(hi, v as nat, lo, width, lsb);
    }
    if fits_signed(v, width) {
        lemma_signed_pattern(v, width);
        lemma_field_of_with_field(hi, twos_complement(v, width), lo, width, lsb);
    }
}

/// 2^e as a machine word.
fn pow2_u64(e: u64) -> (r: u64)
    requires
        e < 64,
    ensures
        r == pow2(e as nat),
{
    proof {
        lemma_u64_pow2_no_overflow(e as nat);
        lemma_u64_shl_is_mul(1, e);
    }
    1u64 << e
}

/// Whether `n` fits in a `width`-bit unsigned field.
pub fn fitsu(n: u64, width: u64) -> (r: bool)
    requires
        width <= 64,
    ensures
        r == fits_unsigned(n as int, width as nat),
{
    if width == 64 {
        proof {
            lemma2_to64();
        }
        true
    } else {
        n < pow2_u64(width)
    }
}

/// Whether `n` fits in a `width`-bit two's-complement field.
pub fn fitss(n: i64, width: u64) -> (r: bool)
    requires
        width <= 64,
    ensures
        r == fits_signed(n as int, width as nat),
{
    if width == 0 {
        n == 0
    } else {
        let half = pow2_u64(width - 1);
        proof {
            lemma2_to64();
            lemma_u64_pow2_no_overflow((width - 1) as nat);
        }
        if n >= 0 {
            (n as u64) < half
        } else {
            ((-(n + 1)) as u64) < half
        }
    }
}

/// Reads the `width`-bit unsigned field of `word` at `lsb`.
pub fn getu(word: u64, width: u64, lsb: u64) -> (r: u64)
    requires
        valid_layout(width, lsb),
    ensures
        r == field_of(word as nat, width as nat, lsb as nat),
{
    if width == 0 {
        proof {
            lemma2_to64();
            lemma_pow2_pos(lsb as nat);
            let q = word as int / pow2(lsb as nat) as int;
            lemma_fundamental_div_mod_converse(q, 1, q, 0);
        }
        return 0;
    }
    let p = pow2_u64(lsb);
    proof {
        lemma_pow2_pos(lsb as nat);
    }
    let q = word / p;
    if width == 64 {
        proof {
            lemma2_to64();
            lemma_fundamental_div_mod_converse(q as int, pow2(64) as int, 0, q as int);
        }
        q
    } else {
        let m = pow2_u64(width);
        proof {
            lemma_pow2_pos(width as nat);
        }
        q % m
    }
}

/// Reads the `width`-bit two's-complement field of `word` at `lsb`.
pub fn gets(word: u64, width: u64, lsb: u64) -> (r: i64)
    requires
        valid_layout(width, lsb),
    ensures
        r == sign_extend(field_of(word as nat, width as nat, lsb as nat), width as nat),
{
    let u = getu(word, width, lsb);
    proof {
        lemma2_to64();
    }
    if width == 0 {
        return 0;
    }
    let half = pow2_u64(width - 1);
    proof {
        let h = (width - 1) as nat;
        lemma_pow2_pos(width as nat);
        lemma_pow2_adds(h, 1);
        assert(h + 1 == width as nat);
        assert(pow2(width as nat) == 2 * pow2(h));
        lemma_pow2_pos(h);
        lemma2_to64_rest();
        if h < 63 {
            lemma_pow2_strictly_increases(h, 63);
        }
        assert(u < pow2(width as nat));
    }
    if u < half {
        assert(u < 0x8000_0000_0000_0000);
        assert(!(u >= pow2((width - 1) as nat)));
        u as i64
    } else {
        let mask: u64 = if width == 64 {
            u64::MAX
        } else {
            pow2_u64(width) - 1
        };
        -((mask - u) as i64) - 1
    }
}

/// Writes `value` into the `width`-bit unsigned field of `word` at `lsb`;
/// `None` when it does not fit.
pub fn newu(word: u64, width: u64, lsb: u64, value: u64) -> (r: Option<u64>)
    requires
        valid_layout(width, lsb),
    ensures
        r is None <==> !fits_unsigned(value as int, width as nat),
        r matches Some(x) ==> x == with_field(word as nat, width as nat, lsb as nat, value as nat),
{
    if !fitsu(value, width) {
        return None;
    }
    if width == 0 {
        proof {
            lemma2_to64();
            lemma_pow2_pos(lsb as nat);
            lemma_fundamental_div_mod(word as int, pow2(lsb as nat) as int);
            lemma_mul_is_commutative(word as int / pow2(lsb as nat) as int, pow2(lsb as nat) as int);
            let pl = pow2(lsb as nat);
            assert(lsb as nat + width as nat == lsb as nat);
            assert(word == (word as nat / pl) * pl + word as nat % pl);
            assert(with_field(word as nat, width as nat, lsb as nat, value as nat) == (word as nat / pl) * pl + 0 * pl + word as nat % pl);
        }
        return Some(word);
    }
    let f = getu(word, width, lsb);
    proof {
        lemma_split_field(word as nat, width as nat, lsb as nat);
        lemma_with_field_bound(word, width as nat, lsb as nat, value as nat);
        lemma_pow2_pos(lsb as nat);
        let p = pow2(lsb as nat) as int;
        assert(0 <= value * p) by (nonlinear_arith)
            requires
                0 <= value,
                0 < p,
        ;
        assert(0 <= (word as nat / pow2(lsb as nat + width as nat)) * pow2(lsb as nat + width as nat))
            by (nonlinear_arith);
    }
    if width == 64 {
        proof {
            lemma2_to64();
            lemma_fundamental_div_mod_converse(word as int, pow2(64) as int, 0, word as int);
            lemma_fundamental_div_mod_converse(word as int, 1, word as int, 0);
            assert(word as nat / pow2(64) == 0);
            assert(word as nat % pow2(0) == 0);
            assert(value * pow2(0) == value);
        }
        return Some(value);
    }
    let p = pow2_u64(lsb);
    let base = word - f * p;
    Some(base + value * p)
}

/// Writes `value` into the `width`-bit two's-complement field of `word` at
/// `lsb`; `None` when it does not fit.
pub fn news(word: u64, width: u64, lsb: u64, value: i64) -> (r: Option<u64>)
    requires
        valid_layout(width, lsb),
    ensures
        r is None <==> !fits_signed(value as int, width as nat),
        r matches Some(x) ==> x == with_field(
            word as nat,
            width as nat,
            lsb as nat,
            twos_complement(value as int, width as nat),
        ),
{
    if !fitss(value, width) {
        return None;
    }
    proof {
        lemma2_to64();
    }
    if width == 0 {
        return newu(word, width, lsb, 0);
    }
    proof {
        let h = (width - 1) as nat;
        lemma_pow2_pos(h);
        lemma_pow2_adds(h, 1);
        assert(h + 1 == width as nat);
        assert(pow2(width as nat) == 2 * pow2(h));
    }
    let pattern: u64 = if value >= 0 {
        value as u64
    } else {
        let mask: u64 = if width == 64 {
            u64::MAX
        } else {
            pow2_u64(width) - 1
        };
        mask - ((-(value + 1)) as u64)
    };
    newu(word, width, lsb, pattern)
}

} // verus!
