use vstd::prelude::*;

verus! {

/// The unsigned little-endian number that the bytes `s` spell.
pub open spec fn le_value(s: Seq<u8>) -> nat
    decreases s.len(),
{
    if s.len() == 0 {
        0
    } else {
        s[0] as nat + 256 * le_value(s.drop_first())
    }
}

/// 256 to the power `m`.
pub open spec fn pow256(m: nat) -> nat
    decreases m,
{
    if m == 0 {
        1
    } else {
        256 * pow256((m - 1) as nat)
    }
}

pub proof fn lemma_le_value_bound(s: Seq<u8>)
    ensures
        le_value(s) < pow256(s.len()),
    decreases s.len(),
{
    if s.len() > 0 {
        lemma_le_value_bound(s.drop_first());
        assert(s.drop_first().len() == s.len() - 1);
    }
}

proof fn lemma_pow256_small(m: nat)
    requires
        m <= 7,
    ensures
        pow256(m) <= 0x100_0000_0000_0000,
{
    reveal_with_fuel(pow256, 8);
}

proof fn lemma_le_value_step(s: Seq<u8>, k: int)
    requires
        0 <= k < s.len(),
    ensures
        le_value(s.subrange(k, s.len() as int)) == s[k] + 256 * le_value(s.subrange(k + 1, s.len() as int)),
{
    assert(s.subrange(k, s.len() as int).drop_first() =~= s.subrange(k + 1, s.len() as int));
}

/// Reads the `n`-byte little-endian number at `off`.
pub fn read_le(bytes: &Vec<u8>, off: usize, n: usize) -> (r: u64)
    requires
        n <= 8,
        off + n <= bytes.len(),
    ensures
        r == le_value(bytes@.subrange(off as int, off + n)),
{
    let ghost s = bytes@.subrange(off as int, off + n);
    let mut v: u64 = 0;
    let mut k: usize = n;
    proof {
        assert(s.subrange(n as int, n as int) =~= Seq::<u8>::empty());
    }
    while k > 0
        invariant
            k <= n <= 8,
            off + n <= bytes.len(),
            s == bytes@.subrange(off as int, off + n),
            v == le_value(s.subrange(k as int, n as int)),
            v < pow256((n - k) as nat),
        decreases k,
    {
        k = k - 1;
        proof {
            lemma_le_value_step(s, k as int);
            assert(s.subrange(k as int, n as int).len() == n - k);
            lemma_le_value_bound(s.subrange(k as int + 1, n as int));
            lemma_pow256_small((n - k - 1) as nat);
            assert(pow256((n - k) as nat) == 256 * pow256((n - k - 1) as nat));
        }
        let b = bytes[off + k];
        assert(b == s[k as int]);
        v = v * 256 + b as u64;
    }
    assert(s.subrange(0, n as int) =~= s);
    v
}

/// The `n` low bytes of `x`, least significant first.
pub open spec fn enc_le(x: nat, n: nat) -> Seq<u8>
    decreases n,
{
    if n == 0 {
        Seq::empty()
    } else {
        enc_le(x, (n - 1) as nat).push(((x / pow256((n - 1) as nat)) % 256) as u8)
    }
}

proof fn lemma_pow256_pos(m: nat)
    ensures
        pow256(m) > 0,
    decreases m,
{
    if m > 0 {
        lemma_pow256_pos((m - 1) as nat);
    }
}

/// Appending a byte adds it at the weight of its position.
pub proof fn lemma_le_value_push(s: Seq<u8>, b: u8)
    ensures
        le_value(s.push(b)) == le_value(s) + b * pow256(s.len()),
    decreases s.len(),
{
    if s.len() == 0 {
        assert(s.push(b).drop_first() =~= Seq::<u8>::empty());
        assert(le_value(Seq::<u8>::empty()) == 0);
        assert(pow256(0) == 1);
        assert(s.push(b)[0] == b);
    } else {
        assert(s.push(b).drop_first() =~= s.drop_first().push(b));
        assert(s.push(b)[0] == s[0]);
        lemma_le_value_push(s.drop_first(), b);
        assert(pow256(s.len()) == 256 * pow256((s.len() - 1) as nat));
        assert(256 * (b * pow256((s.len() - 1) as nat)) == b * (256 * pow256((s.len() - 1) as nat))) by (nonlinear_arith);
    }
}

/// The `n` low bytes of `x` spell `x` modulo `256^n`.
pub proof fn lemma_enc_le(x: nat, n: nat)
    ensures
        enc_le(x, n).len() == n,
        le_value(enc_le(x, n)) == x % pow256(n),
    decreases n,
{
    if n == 0 {
    } else {
        let p = pow256((n - 1) as nat);
        lemma_pow256_pos((n - 1) as nat);
        lemma_enc_le(x, (n - 1) as nat);
        let d = ((x / p) % 256) as u8;
        lemma_le_value_push(enc_le(x, (n - 1) as nat), d);
        vstd::arithmetic::div_mod::lemma_mod_breakdown(x as int, p as int, 256);
        assert(pow256(n) == 256 * p);
        assert(p * 256 == 256 * p) by (nonlinear_arith);
        assert(d * p == p * ((x / p) % 256)) by (nonlinear_arith)
            requires
                d == (x / p) % 256,
        ;
    }
}

/// A number below `256^n` is spelled back by its `n` low bytes.
pub proof fn lemma_enc_le_round_trip(x: nat, n: nat)
    requires
        x < pow256(n),
    ensures
        enc_le(x, n).len() == n,
        le_value(enc_le(x, n)) == x,
{
    lemma_enc_le(x, n);
    vstd::arithmetic::div_mod::lemma_small_mod(x, pow256(n));
}

/// Appends the `n` low bytes of `x`, least significant first.
pub fn write_le(out: &mut Vec<u8>, x: u64, n: usize)
    requires
        n <= 8,
    ensures
        final(out)@ == old(out)@ + enc_le(x as nat, n as nat),
{
    let ghost start = out@;
    let mut v: u64 = x;
    let mut k: usize = 0;
    assert(pow256(0) == 1);
    assert(out@ =~= start + enc_le(x as nat, 0));
    while k < n
        invariant
            k <= n <= 8,
            out@ == start + enc_le(x as nat, k as nat),
            v == x as nat / pow256(k as nat),
        decreases n - k,
    {
        proof {
            lemma_pow256_pos(k as nat);
            vstd::arithmetic::div_mod::lemma_div_denominator(x as int, pow256(k as nat) as int, 256);
            assert(pow256((k + 1) as nat) == 256 * pow256(k as nat));
            assert(pow256(k as nat) * 256 == 256 * pow256(k as nat)) by (nonlinear_arith);
        }
        out.push((v % 256) as u8);
        assert(out@ =~= start + enc_le(x as nat, (k + 1) as nat));
        v = v / 256;
        k = k + 1;
    }
}

/// The powers of 256 for four and eight bytes.
pub proof fn lemma_pow256_values()
    ensures
        pow256(8) == 0x1_0000_0000_0000_0000,
        pow256(4) == 0x1_0000_0000,
{
    reveal_with_fuel(pow256, 9);
}

} // verus!
