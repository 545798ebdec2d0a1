use vstd::prelude::*;

verus! {

use crate::disk::serial::char_from_u32;
use crate::le::{enc_le, le_value, lemma_enc_le, lemma_enc_le_round_trip, lemma_pow256_values, read_le, write_le};

/// The bytes of `s` from `idx` on.
pub open spec fn rest(s: Seq<u8>, idx: int) -> Seq<u8> {
    s.subrange(idx, s.len() as int)
}

/// A value that is written as bytes and read back from them.
pub trait Serial: Sized {
    /// The bytes that stand for the value.
    spec fn enc(&self) -> Seq<u8>;

    /// No encoding is a proper prefix of another: two encodings that both start a
    /// sequence of bytes are the same bytes.
    proof fn lemma_prefix_free(x: &Self, y: &Self, s: Seq<u8>)
        requires
            x.enc().is_prefix_of(s),
            y.enc().is_prefix_of(s),
        ensures
            x.enc() == y.enc(),
    ;

    /// Appends the value's bytes to `vec`.
    fn serialize(&mut self, vec: &mut Vec<u8>)
        ensures
            *final(self) == *old(self),
            final(vec)@ == old(vec)@ + old(self).enc(),
    ;

    /// Reads a value from the bytes of `vec` at `idx` and moves `idx` past them; the
    /// bytes there must start with some value's encoding.
    fn deserialize(vec: &Vec<u8>, idx: &mut usize) -> (r: Self)
        requires
            *old(idx) <= vec.len(),
            exists|x: Self| #[trigger] x.enc().is_prefix_of(rest(vec@, *old(idx) as int)),
        ensures
            r.enc().is_prefix_of(rest(vec@, *old(idx) as int)),
            *final(idx) == *old(idx) + r.enc().len(),
    ;
}

impl Serial for u8 {
    open spec fn enc(&self) -> Seq<u8> {
        seq![*self]
    }

    proof fn lemma_prefix_free(x: &Self, y: &Self, s: Seq<u8>) {
        assert(x.enc()[0] == s[0] && y.enc()[0] == s[0]);
        assert(x.enc() =~= y.enc());
    }

    fn serialize(&mut self, vec: &mut Vec<u8>) {
        vec.push(*self);
        assert(vec@ =~= old(vec)@ + old(self).enc());
    }

    fn deserialize(vec: &Vec<u8>, idx: &mut usize) -> (r: Self) {
        let ghost x = choose|x: u8| #[trigger] x.enc().is_prefix_of(rest(vec@, *old(idx) as int));
        assert(x.enc().len() == 1);
        let r = vec[*idx];
        *idx = *idx + 1;
        assert(r.enc() =~= rest(vec@, *old(idx) as int).subrange(0, 1));
        r
    }
}

impl Serial for i32 {
    open spec fn enc(&self) -> Seq<u8> {
        enc_le((*self as u32) as nat, 4)
    }

    proof fn lemma_prefix_free(x: &Self, y: &Self, s: Seq<u8>) {
        lemma_enc_le((*x as u32) as nat, 4);
        lemma_enc_le((*y as u32) as nat, 4);
        assert(x.enc() =~= y.enc());
    }

    fn serialize(&mut self, vec: &mut Vec<u8>) {
        write_le(vec, (*self as u32) as u64, 4);
    }

    fn deserialize(vec: &Vec<u8>, idx: &mut usize) -> (r: Self) {
        let ghost x = choose|x: i32| #[trigger] x.enc().is_prefix_of(rest(vec@, *old(idx) as int));
        let ghost xu = (x as u32) as nat;
        proof {
            lemma_pow256_values();
            lemma_enc_le_round_trip(xu, 4);
            assert(vec@.subrange(*idx as int, *idx + 4) =~= x.enc());
        }
        let v = read_le(vec, *idx, 4);
        assert(v == xu);
        let r = (v as u32) as i32;
        assert(r == x) by (bit_vector)
            requires
                v == (x as u32) as u64,
                r == (v as u32) as i32,
        ;
        *idx = *idx + 4;
        r
    }
}

impl Serial for u64 {
    open spec fn enc(&self) -> Seq<u8> {
        enc_le(*self as nat, 8)
    }

    proof fn lemma_prefix_free(x: &Self, y: &Self, s: Seq<u8>) {
        lemma_enc_le(*x as nat, 8);
        lemma_enc_le(*y as nat, 8);
        assert(x.enc() =~= y.enc());
    }

    fn serialize(&mut self, vec: &mut Vec<u8>) {
        write_le(vec, *self, 8);
    }

    fn deserialize(vec: &Vec<u8>, idx: &mut usize) -> (r: Self) {
        let ghost x = choose|x: u64| #[trigger] x.enc().is_prefix_of(rest(vec@, *old(idx) as int));
        proof {
            lemma_pow256_values();
            lemma_enc_le_round_trip(x as nat, 8);
            assert(vec@.subrange(*idx as int, *idx + 8) =~= x.enc());
        }
        let v = read_le(vec, *idx, 8);
        assert(v == x);
        *idx = *idx + 8;
        v
    }
}

impl Serial for u16 {
    open spec fn enc(&self) -> Seq<u8> {
        enc_le(*self as nat, 2)
    }

    proof fn lemma_prefix_free(x: &Self, y: &Self, s: Seq<u8>) {
        lemma_enc_le(*x as nat, 2);
        lemma_enc_le(*y as nat, 2);
        assert(x.enc() =~= y.enc());
    }

    fn serialize(&mut self, vec: &mut Vec<u8>) {
        write_le(vec, *self as u64, 2);
    }

    fn deserialize(vec: &Vec<u8>, idx: &mut usize) -> (r: Self) {
        let ghost x = choose|x: u16| #[trigger] x.enc().is_prefix_of(rest(vec@, *old(idx) as int));
        proof {
            lemma_pow256_values();
            reveal_with_fuel(crate::le::pow256, 9);
            lemma_enc_le_round_trip(x as nat, 2);
            assert(vec@.subrange(*idx as int, *idx + 2) =~= x.enc());
        }
        let v = read_le(vec, *idx, 2);
        assert(v == x);
        *idx = *idx + 2;
        v as u16
    }
}

impl Serial for u32 {
    open spec fn enc(&self) -> Seq<u8> {
        enc_le(*self as nat, 4)
    }

    proof fn lemma_prefix_free(x: &Self, y: &Self, s: Seq<u8>) {
        lemma_enc_le(*x as nat, 4);
        lemma_enc_le(*y as nat, 4);
        assert(x.enc() =~= y.enc());
    }

    fn serialize(&mut self, vec: &mut Vec<u8>) {
        write_le(vec, *self as u64, 4);
    }

    fn deserialize(vec: &Vec<u8>, idx: &mut usize) -> (r: Self) {
        let ghost x = choose|x: u32| #[trigger] x.enc().is_prefix_of(rest(vec@, *old(idx) as int));
        proof {
            lemma_pow256_values();
            reveal_with_fuel(crate::le::pow256, 9);
            lemma_enc_le_round_trip(x as nat, 4);
            assert(vec@.subrange(*idx as int, *idx + 4) =~= x.enc());
        }
        let v = read_le(vec, *idx, 4);
        assert(v == x);
        *idx = *idx + 4;
        v as u32
    }
}

impl Serial for usize {
    open spec fn enc(&self) -> Seq<u8> {
        enc_le(*self as nat, 8)
    }

    proof fn lemma_prefix_free(x: &Self, y: &Self, s: Seq<u8>) {
        lemma_enc_le(*x as nat, 8);
        lemma_enc_le(*y as nat, 8);
        assert(x.enc() =~= y.enc());
    }

    fn serialize(&mut self, vec: &mut Vec<u8>) {
        write_le(vec, *self as u64, 8);
    }

    fn deserialize(vec: &Vec<u8>, idx: &mut usize) -> (r: Self) {
        let ghost x = choose|x: usize| #[trigger] x.enc().is_prefix_of(rest(vec@, *old(idx) as int));
        proof {
            lemma_pow256_values();
            reveal_with_fuel(crate::le::pow256, 9);
            lemma_enc_le_round_trip(x as nat, 8);
            assert(vec@.subrange(*idx as int, *idx + 8) =~= x.enc());
        }
        let v = read_le(vec, *idx, 8);
        assert(v == x);
        *idx = *idx + 8;
        v as usize
    }
}

impl Serial for i8 {
    open spec fn enc(&self) -> Seq<u8> {
        enc_le((*self as u8) as nat, 1)
    }

    proof fn lemma_prefix_free(x: &Self, y: &Self, s: Seq<u8>) {
        lemma_enc_le((*x as u8) as nat, 1);
        lemma_enc_le((*y as u8) as nat, 1);
        assert(x.enc() =~= y.enc());
    }

    fn serialize(&mut self, vec: &mut Vec<u8>) {
        write_le(vec, (*self as u8) as u64, 1);
    }

    fn deserialize(vec: &Vec<u8>, idx: &mut usize) -> (r: Self) {
        let ghost x = choose|x: i8| #[trigger] x.enc().is_prefix_of(rest(vec@, *old(idx) as int));
        let ghost xu = (x as u8) as nat;
        proof {
            lemma_pow256_values();
            reveal_with_fuel(crate::le::pow256, 9);
            lemma_enc_le_round_trip(xu, 1);
            assert(vec@.subrange(*idx as int, *idx + 1) =~= x.enc());
        }
        let v = read_le(vec, *idx, 1);
        assert(v == xu);
        let r = (v as u8) as i8;
        assert(r == x) by (bit_vector)
            requires
                v == (x as u8) as u64,
                r == (v as u8) as i8,
        ;
        *idx = *idx + 1;
        r
    }
}

impl Serial for i16 {
    open spec fn enc(&self) -> Seq<u8> {
        enc_le((*self as u16) as nat, 2)
    }

    proof fn lemma_prefix_free(x: &Self, y: &Self, s: Seq<u8>) {
        lemma_enc_le((*x as u16) as nat, 2);
        lemma_enc_le((*y as u16) as nat, 2);
        assert(x.enc() =~= y.enc());
    }

    fn serialize(&mut self, vec: &mut Vec<u8>) {
        write_le(vec, (*self as u16) as u64, 2);
    }

    fn deserialize(vec: &Vec<u8>, idx: &mut usize) -> (r: Self) {
        let ghost x = choose|x: i16| #[trigger] x.enc().is_prefix_of(rest(vec@, *old(idx) as int));
        let ghost xu = (x as u16) as nat;
        proof {
            lemma_pow256_values();
            reveal_with_fuel(crate::le::pow256, 9);
            lemma_enc_le_round_trip(xu, 2);
            assert(vec@.subrange(*idx as int, *idx + 2) =~= x.enc());
        }
        let v = read_le(vec, *idx, 2);
        assert(v == xu);
        let r = (v as u16) as i16;
        assert(r == x) by (bit_vector)
            requires
                v == (x as u16) as u64,
                r == (v as u16) as i16,
        ;
        *idx = *idx + 2;
        r
    }
}

impl Serial for i64 {
    open spec fn enc(&self) -> Seq<u8> {
        enc_le((*self as u64) as nat, 8)
    }

    proof fn lemma_prefix_free(x: &Self, y: &Self, s: Seq<u8>) {
        lemma_enc_le((*x as u64) as nat, 8);
        lemma_enc_le((*y as u64) as nat, 8);
        assert(x.enc() =~= y.enc());
    }

    fn serialize(&mut self, vec: &mut Vec<u8>) {
        write_le(vec, (*self as u64) as u64, 8);
    }

    fn deserialize(vec: &Vec<u8>, idx: &mut usize) -> (r: Self) {
        let ghost x = choose|x: i64| #[trigger] x.enc().is_prefix_of(rest(vec@, *old(idx) as int));
        let ghost xu = (x as u64) as nat;
        proof {
            lemma_pow256_values();
            reveal_with_fuel(crate::le::pow256, 9);
            lemma_enc_le_round_trip(xu, 8);
            assert(vec@.subrange(*idx as int, *idx + 8) =~= x.enc());
        }
        let v = read_le(vec, *idx, 8);
        assert(v == xu);
        let r = (v as u64) as i64;
        assert(r == x) by (bit_vector)
            requires
                v == (x as u64) as u64,
                r == (v as u64) as i64,
        ;
        *idx = *idx + 8;
        r
    }
}

impl Serial for isize {
    open spec fn enc(&self) -> Seq<u8> {
        enc_le((*self as usize) as nat, 8)
    }

    proof fn lemma_prefix_free(x: &Self, y: &Self, s: Seq<u8>) {
        lemma_enc_le((*x as usize) as nat, 8);
        lemma_enc_le((*y as usize) as nat, 8);
        assert(x.enc() =~= y.enc());
    }

    fn serialize(&mut self, vec: &mut Vec<u8>) {
        write_le(vec, (*self as usize) as u64, 8);
    }

    fn deserialize(vec: &Vec<u8>, idx: &mut usize) -> (r: Self) {
        let ghost x = choose|x: isize| #[trigger] x.enc().is_prefix_of(rest(vec@, *old(idx) as int));
        let ghost xu = (x as usize) as nat;
        proof {
            lemma_pow256_values();
            reveal_with_fuel(crate::le::pow256, 9);
            lemma_enc_le_round_trip(xu, 8);
            assert(vec@.subrange(*idx as int, *idx + 8) =~= x.enc());
        }
        let v = read_le(vec, *idx, 8);
        assert(v == xu);
        let r = (v as usize) as isize;
        assert(r == x) by (bit_vector)
            requires
                v == (x as usize) as u64,
                r == (v as usize) as isize,
        ;
        *idx = *idx + 8;
        r
    }
}

impl Serial for char {
    open spec fn enc(&self) -> Seq<u8> {
        enc_le((*self as u32) as nat, 4)
    }

    proof fn lemma_prefix_free(x: &Self, y: &Self, s: Seq<u8>) {
        lemma_enc_le((*x as u32) as nat, 4);
        lemma_enc_le((*y as u32) as nat, 4);
        assert(x.enc() =~= y.enc());
    }

    fn serialize(&mut self, vec: &mut Vec<u8>) {
        write_le(vec, (*self as u32) as u64, 4);
    }

    fn deserialize(vec: &Vec<u8>, idx: &mut usize) -> (r: Self) {
        let ghost x = choose|x: char| #[trigger] x.enc().is_prefix_of(rest(vec@, *old(idx) as int));
        let ghost xu = (x as u32) as nat;
        proof {
            lemma_pow256_values();
            lemma_enc_le_round_trip(xu, 4);
            assert(vec@.subrange(*idx as int, *idx + 4) =~= x.enc());
        }
        let v = read_le(vec, *idx, 4);
        assert(v == xu);
        *idx = *idx + 4;
        proof {
            vstd::utf8::char_is_scalar(x);
            vstd::utf8::char_u32_cast(x, x as u32);
        }
        assert(crate::disk::serial::is_char_value(xu));
        assert(((v as u32) as char) == x);
        match char_from_u32(v as u32) {
            Some(c) => c,
            None => ' ',
        }
    }
}

impl<A: Serial, B: Serial> Serial for (A, B) {
    /// The fields' bytes, one after the other.
    open spec fn enc(&self) -> Seq<u8> {
        self.0.enc() + self.1.enc()
    }

    proof fn lemma_prefix_free(x: &Self, y: &Self, s: Seq<u8>) {
        assert(x.0.enc().is_prefix_of(s) && y.0.enc().is_prefix_of(s)) by {
            assert(x.0.enc() =~= s.subrange(0, x.0.enc().len() as int));
            assert(y.0.enc() =~= s.subrange(0, y.0.enc().len() as int));
        }
        A::lemma_prefix_free(&x.0, &y.0, s);
        let t = s.subrange(x.0.enc().len() as int, s.len() as int);
        assert(x.enc() =~= s.subrange(0, x.enc().len() as int));
        assert(y.enc() =~= s.subrange(0, y.enc().len() as int));
        assert forall|i: int| 0 <= i < x.1.enc().len() implies x.1.enc()[i] == t[i] by {
            assert(x.enc()[x.0.enc().len() + i] == s[x.0.enc().len() + i]);
        }
        assert forall|i: int| 0 <= i < y.1.enc().len() implies y.1.enc()[i] == t[i] by {
            assert(y.enc()[y.0.enc().len() + i] == s[y.0.enc().len() + i]);
        }
        assert(x.1.enc() =~= t.subrange(0, x.1.enc().len() as int));
        assert(y.1.enc() =~= t.subrange(0, y.1.enc().len() as int));
        B::lemma_prefix_free(&x.1, &y.1, t);
    }

    fn serialize(&mut self, vec: &mut Vec<u8>) {
        self.0.serialize(vec);
        self.1.serialize(vec);
        assert(vec@ =~= old(vec)@ + old(self).enc());
    }

    fn deserialize(vec: &Vec<u8>, idx: &mut usize) -> (r: Self) {
        let ghost x = choose|x: (A, B)| #[trigger] x.enc().is_prefix_of(rest(vec@, *old(idx) as int));
        let ghost r0 = rest(vec@, *old(idx) as int);
        assert(x.0.enc() =~= r0.subrange(0, x.0.enc().len() as int));
        assert(x.0.enc().is_prefix_of(r0));
        proof {
            assert(x.enc() =~= r0.subrange(0, x.enc().len() as int));
        }
        let a = A::deserialize(vec, idx);
        proof {
            A::lemma_prefix_free(&a, &x.0, r0);
            assert forall|i: int| 0 <= i < x.1.enc().len() implies x.1.enc()[i] == r0[x.0.enc().len() + i] by {
                assert(x.enc()[x.0.enc().len() + i] == r0[x.0.enc().len() + i]);
            }
            let r1 = rest(vec@, *idx as int);
            assert(r1 =~= r0.subrange(a.enc().len() as int, r0.len() as int));
            assert(x.1.enc() =~= r1.subrange(0, x.1.enc().len() as int));
            assert(x.1.enc().is_prefix_of(r1));
        }
        let ghost idx1 = *idx;
        let b = B::deserialize(vec, idx);
        proof {
            let r1 = rest(vec@, idx1 as int);
            assert((a, b).enc() =~= r0.subrange(0, (a.enc().len() + b.enc().len()) as int)) by {
                assert(r1 =~= r0.subrange(a.enc().len() as int, r0.len() as int));
            }
        }
        (a, b)
    }
}

impl<A: Serial, B: Serial, C: Serial> Serial for (A, B, C) {
    /// The fields' bytes, one after the other.
    open spec fn enc(&self) -> Seq<u8> {
        self.0.enc() + (self.1.enc() + self.2.enc())
    }

    proof fn lemma_prefix_free(x: &Self, y: &Self, s: Seq<u8>) {
        let xp = (x.0, (x.1, x.2));
        let yp = (y.0, (y.1, y.2));
        assert(xp.enc() == x.enc());
        assert(yp.enc() == y.enc());
        <(A, (B, C)) as Serial>::lemma_prefix_free(&xp, &yp, s);
    }

    fn serialize(&mut self, vec: &mut Vec<u8>) {
        self.0.serialize(vec);
        self.1.serialize(vec);
        self.2.serialize(vec);
        assert(vec@ =~= old(vec)@ + old(self).enc());
    }

    fn deserialize(vec: &Vec<u8>, idx: &mut usize) -> (r: Self) {
        let ghost x = choose|x: (A, B, C)| #[trigger] x.enc().is_prefix_of(rest(vec@, *old(idx) as int));
        let ghost xp = (x.0, (x.1, x.2));
        assert(xp.enc() == x.enc());
        assert(xp.enc().is_prefix_of(rest(vec@, *old(idx) as int)));
        let (a, bc) = <(A, (B, C)) as Serial>::deserialize(vec, idx);
        let (b, c) = bc;
        assert((a, b, c).enc() == (a, (b, c)).enc());
        (a, b, c)
    }
}

/// A value whose bytes stand for it alone: reading back the bytes of a value gives
/// that value.
pub trait SerialExact: Serial {
    /// Two values with the same bytes are the same value.
    proof fn lemma_enc_injective(x: &Self, y: &Self)
        requires
            x.enc() == y.enc(),
        ensures
            *x == *y,
    ;
}

impl SerialExact for u8 {
    proof fn lemma_enc_injective(x: &Self, y: &Self) {
        assert(x.enc()[0] == *x);
        assert(y.enc()[0] == *y);
    }
}

impl SerialExact for u16 {
    proof fn lemma_enc_injective(x: &Self, y: &Self) {
        lemma_pow256_values();
        reveal_with_fuel(crate::le::pow256, 9);
        lemma_enc_le_round_trip(*x as nat, 2);
        lemma_enc_le_round_trip(*y as nat, 2);
    }
}

impl SerialExact for u32 {
    proof fn lemma_enc_injective(x: &Self, y: &Self) {
        lemma_pow256_values();
        reveal_with_fuel(crate::le::pow256, 9);
        lemma_enc_le_round_trip(*x as nat, 4);
        lemma_enc_le_round_trip(*y as nat, 4);
    }
}

impl SerialExact for u64 {
    proof fn lemma_enc_injective(x: &Self, y: &Self) {
        lemma_pow256_values();
        reveal_with_fuel(crate::le::pow256, 9);
        lemma_enc_le_round_trip(*x as nat, 8);
        lemma_enc_le_round_trip(*y as nat, 8);
    }
}

impl SerialExact for usize {
    proof fn lemma_enc_injective(x: &Self, y: &Self) {
        lemma_pow256_values();
        reveal_with_fuel(crate::le::pow256, 9);
        lemma_enc_le_round_trip(*x as nat, 8);
        lemma_enc_le_round_trip(*y as nat, 8);
    }
}

impl SerialExact for i8 {
    proof fn lemma_enc_injective(x: &Self, y: &Self) {
        lemma_pow256_values();
        reveal_with_fuel(crate::le::pow256, 9);
        lemma_enc_le_round_trip((*x as u8) as nat, 1);
        lemma_enc_le_round_trip((*y as u8) as nat, 1);
        let a = *x;
        let b = *y;
        assert(a == b) by (bit_vector)
            requires
                (a as u8) == (b as u8),
        ;
    }
}

impl SerialExact for i16 {
    proof fn lemma_enc_injective(x: &Self, y: &Self) {
        lemma_pow256_values();
        reveal_with_fuel(crate::le::pow256, 9);
        lemma_enc_le_round_trip((*x as u16) as nat, 2);
        lemma_enc_le_round_trip((*y as u16) as nat, 2);
        let a = *x;
        let b = *y;
        assert(a == b) by (bit_vector)
            requires
                (a as u16) == (b as u16),
        ;
    }
}

impl SerialExact for i32 {
    proof fn lemma_enc_injective(x: &Self, y: &Self) {
        lemma_pow256_values();
        reveal_with_fuel(crate::le::pow256, 9);
        lemma_enc_le_round_trip((*x as u32) as nat, 4);
        lemma_enc_le_round_trip((*y as u32) as nat, 4);
        let a = *x;
        let b = *y;
        assert(a == b) by (bit_vector)
            requires
                (a as u32) == (b as u32),
        ;
    }
}

impl SerialExact for i64 {
    proof fn lemma_enc_injective(x: &Self, y: &Self) {
        lemma_pow256_values();
        reveal_with_fuel(crate::le::pow256, 9);
        lemma_enc_le_round_trip((*x as u64) as nat, 8);
        lemma_enc_le_round_trip((*y as u64) as nat, 8);
        let a = *x;
        let b = *y;
        assert(a == b) by (bit_vector)
            requires
                (a as u64) == (b as u64),
        ;
    }
}

impl SerialExact for isize {
    proof fn lemma_enc_injective(x: &Self, y: &Self) {
        lemma_pow256_values();
        reveal_with_fuel(crate::le::pow256, 9);
        lemma_enc_le_round_trip((*x as usize) as nat, 8);
        lemma_enc_le_round_trip((*y as usize) as nat, 8);
        let a = *x;
        let b = *y;
        assert(a == b) by (bit_vector)
            requires
                (a as usize) == (b as usize),
        ;
    }
}

impl SerialExact for char {
    proof fn lemma_enc_injective(x: &Self, y: &Self) {
        lemma_pow256_values();
        lemma_enc_le_round_trip((*x as u32) as nat, 4);
        lemma_enc_le_round_trip((*y as u32) as nat, 4);
        vstd::utf8::char_u32_cast(*x, *x as u32);
        vstd::utf8::char_u32_cast(*y, *y as u32);
    }
}

impl<A: SerialExact, B: SerialExact> SerialExact for (A, B) {
    proof fn lemma_enc_injective(x: &Self, y: &Self) {
        let s = x.enc();
        assert(x.0.enc().is_prefix_of(s) && y.0.enc().is_prefix_of(s)) by {
            assert(x.0.enc() =~= s.subrange(0, x.0.enc().len() as int));
            assert(y.0.enc() =~= y.enc().subrange(0, y.0.enc().len() as int));
        }
        A::lemma_prefix_free(&x.0, &y.0, s);
        A::lemma_enc_injective(&x.0, &y.0);
        assert(x.1.enc() =~= s.subrange(x.0.enc().len() as int, s.len() as int));
        assert(y.1.enc() =~= s.subrange(y.0.enc().len() as int, s.len() as int));
        B::lemma_enc_injective(&x.1, &y.1);
    }
}

impl<A: SerialExact, B: SerialExact, C: SerialExact> SerialExact for (A, B, C) {
    proof fn lemma_enc_injective(x: &Self, y: &Self) {
        let xp = (x.0, (x.1, x.2));
        let yp = (y.0, (y.1, y.2));
        assert(xp.enc() == x.enc());
        assert(yp.enc() == y.enc());
        <(A, (B, C)) as SerialExact>::lemma_enc_injective(&xp, &yp);
    }
}

impl<A: Serial, B: Serial, C: Serial, D: Serial> Serial for (A, B, C, D) {
    /// The fields' bytes, one after the other.
    open spec fn enc(&self) -> Seq<u8> {
        self.0.enc() + (self.1.enc() + (self.2.enc() + (self.3.enc())))
    }

    proof fn lemma_prefix_free(x: &Self, y: &Self, s: Seq<u8>) {
        let xp = (x.0, (x.1, (x.2, x.3)));
        let yp = (y.0, (y.1, (y.2, y.3)));
        assert(xp.enc() == x.enc());
        assert(yp.enc() == y.enc());
        <(A, (B, (C, D))) as Serial>::lemma_prefix_free(&xp, &yp, s);
    }

    fn serialize(&mut self, vec: &mut Vec<u8>) {
        self.0.serialize(vec);
        self.1.serialize(vec);
        self.2.serialize(vec);
        self.3.serialize(vec);
        assert(vec@ =~= old(vec)@ + old(self).enc());
    }

    fn deserialize(vec: &Vec<u8>, idx: &mut usize) -> (r: Self) {
        let ghost x = choose|x: (A, B, C, D)| #[trigger] x.enc().is_prefix_of(rest(vec@, *old(idx) as int));
        let ghost xp = (x.0, (x.1, (x.2, x.3)));
        assert(xp.enc() == x.enc());
        assert(xp.enc().is_prefix_of(rest(vec@, *old(idx) as int)));
        let (v0, (v1, (v2, v3))) = <(A, (B, (C, D))) as Serial>::deserialize(vec, idx);
        assert((v0, v1, v2, v3).enc() == (v0, (v1, (v2, v3))).enc());
        (v0, v1, v2, v3)
    }
}

impl<A: SerialExact, B: SerialExact, C: SerialExact, D: SerialExact> SerialExact for (A, B, C, D) {
    proof fn lemma_enc_injective(x: &Self, y: &Self) {
        let xp = (x.0, (x.1, (x.2, x.3)));
        let yp = (y.0, (y.1, (y.2, y.3)));
        assert(xp.enc() == x.enc());
        assert(yp.enc() == y.enc());
        <(A, (B, (C, D))) as SerialExact>::lemma_enc_injective(&xp, &yp);
    }
}

impl<A: Serial, B: Serial, C: Serial, D: Serial, E: Serial> Serial for (A, B, C, D, E) {
    /// The fields' bytes, one after the other.
    open spec fn enc(&self) -> Seq<u8> {
        self.0.enc() + (self.1.enc() + (self.2.enc() + (self.3.enc() + (self.4.enc()))))
    }

    proof fn lemma_prefix_free(x: &Self, y: &Self, s: Seq<u8>) {
        let xp = (x.0, (x.1, (x.2, (x.3, x.4))));
        let yp = (y.0, (y.1, (y.2, (y.3, y.4))));
        assert(xp.enc() == x.enc());
        assert(yp.enc() == y.enc());
        <(A, (B, (C, (D, E)))) as Serial>::lemma_prefix_free(&xp, &yp, s);
    }

    fn serialize(&mut self, vec: &mut Vec<u8>) {
        self.0.serialize(vec);
        self.1.serialize(vec);
        self.2.serialize(vec);
        self.3.serialize(vec);
        self.4.serialize(vec);
        assert(vec@ =~= old(vec)@ + old(self).enc());
    }

    fn deserialize(vec: &Vec<u8>, idx: &mut usize) -> (r: Self) {
        let ghost x = choose|x: (A, B, C, D, E)| #[trigger] x.enc().is_prefix_of(rest(vec@, *old(idx) as int));
        let ghost xp = (x.0, (x.1, (x.2, (x.3, x.4))));
        assert(xp.enc() == x.enc());
        assert(xp.enc().is_prefix_of(rest(vec@, *old(idx) as int)));
        let (v0, (v1, (v2, (v3, v4)))) = <(A, (B, (C, (D, E)))) as Serial>::deserialize(vec, idx);
        assert((v0, v1, v2, v3, v4).enc() == (v0, (v1, (v2, (v3, v4)))).enc());
        (v0, v1, v2, v3, v4)
    }
}

impl<A: SerialExact, B: SerialExact, C: SerialExact, D: SerialExact, E: SerialExact> SerialExact for (A, B, C, D, E) {
    proof fn lemma_enc_injective(x: &Self, y: &Self) {
        let xp = (x.0, (x.1, (x.2, (x.3, x.4))));
        let yp = (y.0, (y.1, (y.2, (y.3, y.4))));
        assert(xp.enc() == x.enc());
        assert(yp.enc() == y.enc());
        <(A, (B, (C, (D, E)))) as SerialExact>::lemma_enc_injective(&xp, &yp);
    }
}

impl<A: Serial, B: Serial, C: Serial, D: Serial, E: Serial, F: Serial> Serial for (A, B, C, D, E, F) {
    /// The fields' bytes, one after the other.
    open spec fn enc(&self) -> Seq<u8> {
        self.0.enc() + (self.1.enc() + (self.2.enc() + (self.3.enc() + (self.4.enc() + (self.5.enc())))))
    }

    proof fn lemma_prefix_free(x: &Self, y: &Self, s: Seq<u8>) {
        let xp = (x.0, (x.1, (x.2, (x.3, (x.4, x.5)))));
        let yp = (y.0, (y.1, (y.2, (y.3, (y.4, y.5)))));
        assert(xp.enc() == x.enc());
        assert(yp.enc() == y.enc());
        <(A, (B, (C, (D, (E, F))))) as Serial>::lemma_prefix_free(&xp, &yp, s);
    }

    fn serialize(&mut self, vec: &mut Vec<u8>) {
        self.0.serialize(vec);
        self.1.serialize(vec);
        self.2.serialize(vec);
        self.3.serialize(vec);
        self.4.serialize(vec);
        self.5.serialize(vec);
        assert(vec@ =~= old(vec)@ + old(self).enc());
    }

    fn deserialize(vec: &Vec<u8>, idx: &mut usize) -> (r: Self) {
        let ghost x = choose|x: (A, B, C, D, E, F)| #[trigger] x.enc().is_prefix_of(rest(vec@, *old(idx) as int));
        let ghost xp = (x.0, (x.1, (x.2, (x.3, (x.4, x.5)))));
        assert(xp.enc() == x.enc());
        assert(xp.enc().is_prefix_of(rest(vec@, *old(idx) as int)));
        let (v0, (v1, (v2, (v3, (v4, v5))))) = <(A, (B, (C, (D, (E, F))))) as Serial>::deserialize(vec, idx);
        assert((v0, v1, v2, v3, v4, v5).enc() == (v0, (v1, (v2, (v3, (v4, v5))))).enc());
        (v0, v1, v2, v3, v4, v5)
    }
}

impl<A: SerialExact, B: SerialExact, C: SerialExact, D: SerialExact, E: SerialExact, F: SerialExact> SerialExact for (A, B, C, D, E, F) {
    proof fn lemma_enc_injective(x: &Self, y: &Self) {
        let xp = (x.0, (x.1, (x.2, (x.3, (x.4, x.5)))));
        let yp = (y.0, (y.1, (y.2, (y.3, (y.4, y.5)))));
        assert(xp.enc() == x.enc());
        assert(yp.enc() == y.enc());
        <(A, (B, (C, (D, (E, F))))) as SerialExact>::lemma_enc_injective(&xp, &yp);
    }
}

/// Reading back: a value whose bytes start where the bytes of `x` start, as what
/// `deserialize` returns on the bytes of `x` does, is `x`.
pub proof fn lemma_read_back<T: SerialExact>(x: T, r: T, s: Seq<u8>)
    requires
        x.enc().is_prefix_of(s),
        r.enc().is_prefix_of(s),
    ensures
        r == x,
{
    T::lemma_prefix_free(&x, &r, s);
    T::lemma_enc_injective(&x, &r);
}

/// The bytes of `obj`.
pub fn serialize<T: Serial>(obj: &mut T) -> (r: Vec<u8>)
    ensures
        *final(obj) == *old(obj),
        r@ == old(obj).enc(),
{
    let mut vec: Vec<u8> = Vec::new();
    obj.serialize(&mut vec);
    assert(vec@ =~= old(obj).enc());
    vec
}

/// The value whose encoding starts `data`.
pub fn deserialize<T: Serial>(data: &Vec<u8>) -> (r: T)
    requires
        exists|x: T| #[trigger] x.enc().is_prefix_of(data@),
    ensures
        r.enc().is_prefix_of(data@),
        forall|x: T| #[trigger] x.enc().is_prefix_of(data@) ==> r.enc() == x.enc(),
{
    let mut idx: usize = 0;
    assert(rest(data@, 0) =~= data@);
    let r = T::deserialize(data, &mut idx);
    proof {
        assert forall|x: T| #[trigger] x.enc().is_prefix_of(data@) implies r.enc() == x.enc() by {
            T::lemma_prefix_free(&r, &x, data@);
        }
    }
    r
}

} // verus!
