//! Bit sequences held in `bitvec` bit-vectors, and the numbers they denote.
use vstd::prelude::*;

use bitvec::vec::BitVec;

verus! {

/// A sequence of bits, held in a `bitvec` bit-vector (`BitVec<usize, Lsb0>`).
#[verifier::external_body]
#[derive(Debug, PartialEq, Eq, Hash)]
pub struct Bits {
    inner: BitVec,
}

/// The bits a `Bits` holds, in index order.
pub uninterp spec fn bits_of(v: Bits) -> Seq<bool>;

impl Clone for Bits {
    /// `BitVec::clone`: a bit-vector holding the same bits.
    #[verifier::external_body]
    fn clone(&self) -> (copy: Self)
        ensures
            bits_of(copy) == bits_of(*self),
    {
        Bits { inner: self.inner.clone() }
    }
}

/// The most bits a `BitVec` can hold (`BitSlice::MAX_BITS`, `usize::MAX >> 3`).
pub open spec fn max_bits() -> int {
    usize::MAX as int / 8
}

/// `BitVec::new`: an empty bit-vector.
#[verifier::external_body]
pub(crate) fn bitvec_new() -> (v: Bits)
    ensures
        bits_of(v) == Seq::<bool>::empty(),
{
    Bits { inner: BitVec::new() }
}

/// `BitVec::push`: appends one bit. It panics past `max_bits()` bits, which
/// `requires` rules out.
#[verifier::external_body]
pub(crate) fn bitvec_push(v: &mut Bits, bit: bool)
    requires
        bits_of(*old(v)).len() + 1 <= max_bits(),
    ensures
        bits_of(*final(v)) == bits_of(*old(v)).push(bit),
{
    v.inner.push(bit)
}

/// `BitVec::len`: the number of bits held.
#[verifier::external_body]
pub(crate) fn bitvec_len(v: &Bits) -> (n: usize)
    ensures
        n == bits_of(*v).len(),
{
    v.inner.len()
}

/// Indexing a `BitVec` (`Index<usize>` of `BitSlice`) in bounds: the bit held
/// at `i`.
#[verifier::external_body]
pub(crate) fn bitvec_get(v: &Bits, i: usize) -> (bit: bool)
    requires
        i < bits_of(*v).len(),
    ensures
        bit == bits_of(*v)[i as int],
{
    v.inner[i]
}

impl Bits {
    /// A bit-vector holding `bools`.
    pub fn from_bools(bools: &[bool]) -> (v: Bits)
        requires
            bools@.len() <= max_bits(),
        ensures
            bits_of(v) == bools@,
    {
        let mut v = bitvec_new();
        let mut i: usize = 0;
        while i < bools.len()
            invariant
                i <= bools@.len(),
                bools@.len() <= max_bits(),
                bits_of(v) == bools@.take(i as int),
            decreases bools@.len() - i,
        {
            bitvec_push(&mut v, bools[i]);
            assert(bools@.take(i + 1) =~= bools@.take(i as int).push(bools@[i as int]));
            i = i + 1;
        }
        assert(bools@.take(bools@.len() as int) =~= bools@);
        v
    }

    /// The bits held, in order.
    pub fn to_bools(&self) -> (bools: Vec<bool>)
        ensures
            bools@ == bits_of(*self),
    {
        let n = bitvec_len(self);
        let mut out: Vec<bool> = Vec::new();
        let mut i: usize = 0;
        while i < n
            invariant
                i <= n,
                n == bits_of(*self).len(),
                out@ =~= bits_of(*self).take(i as int),
            decreases n - i,
        {
            out.push(bitvec_get(self, i));
            i = i + 1;
        }
        out
    }

    /// The number of bits held.
    pub fn len(&self) -> (n: usize)
        ensures
            n == bits_of(*self).len(),
    {
        bitvec_len(self)
    }
}

/// Powers of two.
pub open spec fn pow2(e: nat) -> nat
    decreases e,
{
    if e == 0 {
        1
    } else {
        2 * pow2((e - 1) as nat)
    }
}

/// The number that `bits` denote, most significant bit first.
pub open spec fn bin_val(bits: Seq<bool>) -> nat
    decreases bits.len(),
{
    if bits.len() == 0 {
        0
    } else {
        2 * bin_val(bits.drop_last()) + (if bits.last() {
            1nat
        } else {
            0nat
        })
    }
}

/// The number that `bits` denote, least significant bit first.
pub open spec fn le_val(bits: Seq<bool>) -> nat
    decreases bits.len(),
{
    if bits.len() == 0 {
        0
    } else {
        le_val(bits.drop_last()) + (if bits.last() {
            pow2((bits.len() - 1) as nat)
        } else {
            0nat
        })
    }
}

/// The shortest binary numeral of `v`, most significant bit first: empty for 0,
/// else starting with a one.
pub open spec fn binary(v: nat) -> Seq<bool>
    decreases v,
{
    if v == 0 {
        Seq::empty()
    } else {
        binary(v / 2).push(v % 2 == 1)
    }
}

/// The `k`-bit numeral of `v` (its `k` low bits), most significant bit first.
pub open spec fn kbits(v: nat, k: nat) -> Seq<bool>
    decreases k,
{
    if k == 0 {
        Seq::empty()
    } else {
        kbits(v / 2, (k - 1) as nat).push(v % 2 == 1)
    }
}

/// `k` zero bits.
pub open spec fn zeros(k: nat) -> Seq<bool> {
    Seq::new(k, |i: int| false)
}

/// No leading zero bit.
pub open spec fn canonical(bits: Seq<bool>) -> bool {
    bits.len() == 0 || bits[0]
}

pub(crate) proof fn lemma_bin_val_binary(v: nat)
    ensures
        bin_val(binary(v)) == v,
        canonical(binary(v)),
        binary(v).len() == 0 <==> v == 0,
    decreases v,
{
    if v != 0 {
        lemma_bin_val_binary(v / 2);
        assert(binary(v).drop_last() =~= binary(v / 2));
        if v / 2 == 0 {
            assert(binary(v) =~= seq![true]);
        } else {
            assert(binary(v)[0] == binary(v / 2)[0]);
        }
    }
}

pub(crate) proof fn lemma_bin_val_zeros(k: nat)
    ensures
        bin_val(zeros(k)) == 0,
    decreases k,
{
    if k > 0 {
        assert(zeros(k).drop_last() =~= zeros((k - 1) as nat));
        lemma_bin_val_zeros((k - 1) as nat);
    }
}

/// Leading zero bits do not change the value.
pub(crate) proof fn lemma_bin_val_skip_zeros(s: Seq<bool>, k: int)
    requires
        0 <= k <= s.len(),
        forall|i: int| 0 <= i < k ==> !s[i],
    ensures
        bin_val(s) == bin_val(s.skip(k)),
    decreases s.len(),
{
    if s.len() == k {
        assert(s =~= zeros(k as nat));
        lemma_bin_val_zeros(k as nat);
        assert(s.skip(k) =~= Seq::<bool>::empty());
    } else {
        lemma_bin_val_skip_zeros(s.drop_last(), k);
        assert(s.skip(k).drop_last() =~= s.drop_last().skip(k));
    }
}

/// A canonical numeral is the shortest numeral of its value.
pub(crate) proof fn lemma_binary_canonical(s: Seq<bool>)
    requires
        canonical(s),
    ensures
        binary(bin_val(s)) == s,
    decreases s.len(),
{
    if s.len() > 0 {
        let t = s.drop_last();
        if t.len() > 0 {
            assert(t[0] == s[0]);
        }
        lemma_binary_canonical(t);
        lemma_bin_val_binary(bin_val(t));
        if t.len() == 0 {
            assert(bin_val(s) == 1);
            assert(binary(1) == binary(0).push(true));
            assert(s =~= seq![true]);
        } else {
            assert(bin_val(t) > 0);
            assert(bin_val(s) > 0);
            assert(bin_val(s) / 2 == bin_val(t));
            assert(binary(bin_val(s)) =~= binary(bin_val(t)).push(s.last()));
            assert(s =~= t.push(s.last()));
        }
    }
}

/// A value is zero exactly when its numeral holds no one bit.
pub(crate) proof fn lemma_bin_val_zero(s: Seq<bool>)
    ensures
        bin_val(s) == 0 <==> forall|i: int| 0 <= i < s.len() ==> !s[i],
    decreases s.len(),
{
    if s.len() > 0 {
        lemma_bin_val_zero(s.drop_last());
        if bin_val(s) == 0 {
            assert forall|i: int| 0 <= i < s.len() implies !s[i] by {
                if i < s.len() - 1 {
                    assert(s[i] == s.drop_last()[i]);
                }
            }
        } else {
            if forall|i: int| 0 <= i < s.len() ==> !s[i] {
                assert forall|i: int| 0 <= i < s.drop_last().len() implies !s.drop_last()[i] by {
                    assert(s.drop_last()[i] == s[i]);
                }
                assert(!s.last());
            }
        }
    }
}

/// Appending `k` bits of `d` multiplies the value by `2^k` and adds `d`.
pub(crate) proof fn lemma_bin_val_append_kbits(a: Seq<bool>, d: nat, k: nat)
    requires
        d < pow2(k),
    ensures
        bin_val(a + kbits(d, k)) == bin_val(a) * pow2(k) + d,
        kbits(d, k).len() == k,
    decreases k,
{
    if k == 0 {
        assert(a + kbits(d, k) =~= a);
    } else {
        let k1 = (k - 1) as nat;
        assert(d / 2 < pow2(k1));
        lemma_bin_val_append_kbits(a, d / 2, k1);
        assert((a + kbits(d, k)).drop_last() =~= a + kbits(d / 2, k1));
        let x = bin_val(a);
        assert(bin_val(a + kbits(d, k)) == 2 * (x * pow2(k1) + d / 2) + d % 2);
        assert(2 * (x * pow2(k1) + d / 2) + d % 2 == x * (2 * pow2(k1)) + d) by (nonlinear_arith);
    }
}

} // verus!
