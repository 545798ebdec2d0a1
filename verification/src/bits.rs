use vstd::prelude::*;

verus! {

/// Bit `b` of the word `w`, counted from the least significant bit.
pub open spec fn bit_of(w: u64, b: u64) -> bool {
    (w >> b) & 1u64 == 1u64
}

/// Bit `i` of a sequence of 64-bit words, word `i / 64` holding bits `64 * (i / 64) ..`.
pub open spec fn words_bit(words: Seq<u64>, i: int) -> bool {
    bit_of(words[i / 64], (i % 64) as u64)
}

/// Number of 64-bit words that hold `n` bits.
pub open spec fn num_words(n: int) -> int {
    (n + 63) / 64
}

/// Setting, clearing and testing one bit of a word.
pub proof fn lemma_bit_ops(w: u64, b: u64, c: u64)
    requires
        b < 64,
        c < 64,
    ensures
        bit_of(w | (1u64 << b), c) == (c == b || bit_of(w, c)),
        bit_of(w & !(1u64 << b), c) == (c != b && bit_of(w, c)),
        ((w & (1u64 << b)) != 0) == bit_of(w, b),
{
    assert(bit_of(w | (1u64 << b), c) == (c == b || bit_of(w, c))) by (bit_vector)
        requires
            b < 64,
            c < 64,
    ;
    assert(bit_of(w & !(1u64 << b), c) == (c != b && bit_of(w, c))) by (bit_vector)
        requires
            b < 64,
            c < 64,
    ;
    assert(((w & (1u64 << b)) != 0) == bit_of(w, b)) by (bit_vector)
        requires
            b < 64,
    ;
}

/// The zero word has no bit set.
pub proof fn lemma_zero_word(c: u64)
    ensures
        !bit_of(0u64, c),
{
    assert(!bit_of(0u64, c)) by (bit_vector);
}

/// `x / y` rounded up.
pub open spec fn spec_div_ceil(x: int, y: int) -> int {
    (x + y - 1) / y
}

/// Rounding up adds one to the quotient exactly when the division leaves a remainder.
pub proof fn lemma_div_ceil(x: int, y: int, q: int, rem: int)
    requires
        y > 0,
        q >= 0,
        0 <= rem < y,
        x == q * y + rem,
    ensures
        spec_div_ceil(x, y) == q + (if rem == 0 { 0int } else { 1int }),
{
    if rem == 0 {
        vstd::arithmetic::div_mod::lemma_fundamental_div_mod_converse(q * y + y - 1, y, q, y - 1);
    } else {
        assert(q * y + rem + y - 1 == (q + 1) * y + (rem - 1)) by (nonlinear_arith);
        vstd::arithmetic::div_mod::lemma_fundamental_div_mod_converse(q * y + rem + y - 1, y, q + 1, rem - 1);
    }
}

/// `x / y` rounded up (the quotient of `x` and `y`, towards positive infinity).
pub fn div_ceil(x: u64, y: u64) -> (r: u64)
    requires
        y > 0,
    ensures
        r == spec_div_ceil(x as int, y as int),
{
    let q = x / y;
    let rem = x % y;
    proof {
        vstd::arithmetic::div_mod::lemma_fundamental_div_mod(x as int, y as int);
        assert(x as int == q as int * y as int + rem as int) by (nonlinear_arith)
            requires
                x as int == y as int * (x as int / y as int) + x as int % y as int,
                q == x / y,
                rem == x % y,
        ;
        lemma_div_ceil(x as int, y as int, q as int, rem as int);
        if rem != 0 {
            assert(q < u64::MAX) by (nonlinear_arith)
                requires
                    x as int == q as int * y as int + rem as int,
                    rem > 0,
                    rem < y,
                    x <= u64::MAX,
            ;
        }
    }
    if rem == 0 {
        q
    } else {
        q + 1
    }
}

} // verus!
