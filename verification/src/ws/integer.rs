//! Integers of any size, as literals carry them, with decimal output.
use vstd::prelude::*;

use crate::ws::bits::{
    bin_val, binary, canonical, bitvec_get, bitvec_len, bits_of, le_val, lemma_bin_val_binary,
    lemma_bin_val_skip_zeros, lemma_bin_val_zero, pow2, Bits,
};
use crate::ws::text::string_from_chars;

verus! {

/// `ds` read as a numeral in base `radix`, most significant digit first.
pub open spec fn digits_value(ds: Seq<u8>, radix: nat) -> nat
    decreases ds.len(),
{
    if ds.len() == 0 {
        0
    } else {
        digits_value(ds.drop_last(), radix) * radix + ds.last() as nat
    }
}

/// The decimal digit character for `d < 10`.
pub open spec fn digit_char(d: nat) -> char {
    if d == 0 {
        '0'
    } else if d == 1 {
        '1'
    } else if d == 2 {
        '2'
    } else if d == 3 {
        '3'
    } else if d == 4 {
        '4'
    } else if d == 5 {
        '5'
    } else if d == 6 {
        '6'
    } else if d == 7 {
        '7'
    } else if d == 8 {
        '8'
    } else {
        '9'
    }
}

/// The decimal numeral of `v`, without leading zeros.
pub open spec fn decimal_chars(v: nat) -> Seq<char>
    decreases v,
{
    if v < 10 {
        seq![digit_char(v)]
    } else {
        decimal_chars(v / 10).push(digit_char(v % 10))
    }
}

/// The decimal numeral of `v`, with a minus sign when negative.
pub open spec fn signed_decimal(v: int) -> Seq<char> {
    if v < 0 {
        seq!['-'] + decimal_chars((-v) as nat)
    } else {
        decimal_chars(v as nat)
    }
}

/// `v`, negated when `negative`.
pub open spec fn signed(negative: bool, v: nat) -> int {
    if negative {
        -(v as int)
    } else {
        v as int
    }
}

/// An integer of any size: a sign and a binary magnitude. The magnitude is
/// the shortest numeral of the value and zero is never negative, so each
/// integer has one representation and `==` compares values.
#[derive(Debug, PartialEq, Eq, Hash)]
pub struct BigInt {
    negative: bool,
    magnitude: Vec<bool>,
}

impl Clone for BigInt {
    fn clone(&self) -> (copy: Self)
        ensures
            copy@ == self@,
            copy.magnitude_bits() == self.magnitude_bits(),
    {
        proof {
            use_type_invariant(self);
        }
        let magnitude = self.magnitude.clone();
        assert(magnitude@ =~= self.magnitude@);
        BigInt { negative: self.negative, magnitude }
    }
}

impl BigInt {
    #[verifier::type_invariant]
    spec fn canonical_form(self) -> bool {
        &&& canonical(self.magnitude@)
        &&& self.negative ==> self.magnitude@.len() > 0
    }
}

impl View for BigInt {
    type V = int;

    closed spec fn view(&self) -> int {
        signed(self.negative, bin_val(self.magnitude@))
    }
}

pub(crate) proof fn lemma_pow2_pos(e: nat)
    ensures
        pow2(e) >= 1,
    decreases e,
{
    if e > 0 {
        lemma_pow2_pos((e - 1) as nat);
    }
}

/// `le_val` read from the front: the first bit is the least significant.
pub(crate) proof fn lemma_le_front(s: Seq<bool>)
    requires
        s.len() >= 1,
    ensures
        le_val(s) == (if s[0] {
            1nat
        } else {
            0nat
        }) + 2 * le_val(s.drop_first()),
    decreases s.len(),
{
    let n = s.len();
    if n > 1 {
        let t = s.drop_last();
        let u = s.drop_first();
        lemma_le_front(t);
        assert(u.drop_last() =~= t.drop_first());
        assert(t[0] == s[0]);
        assert(u.last() == s.last());
        assert(pow2((n - 1) as nat) == 2 * pow2((n - 2) as nat));
        assert(le_val(u) == le_val(u.drop_last()) + (if u.last() {
            pow2((n - 2) as nat)
        } else {
            0nat
        }));
        assert(le_val(s) == le_val(t) + (if s.last() {
            pow2((n - 1) as nat)
        } else {
            0nat
        }));
    } else {
        assert(s.drop_first().len() == 0);
        assert(s.drop_last().len() == 0);
        assert(le_val(s.drop_first()) == 0);
        assert(le_val(s.drop_last()) == 0);
        assert(pow2(0) == 1);
        assert(s.last() == s[0]);
    }
}

/// The reverse of a little-endian numeral without high zeros is the shortest
/// binary numeral of its value.
pub(crate) proof fn lemma_le_reverse(s: Seq<bool>)
    requires
        s.len() == 0 || s.last(),
    ensures
        binary(le_val(s)) =~= Seq::new(s.len(), |t: int| s[s.len() - 1 - t]),
    decreases s.len(),
{
    if s.len() > 0 {
        let n = s.len();
        let u = s.drop_first();
        lemma_le_front(s);
        lemma_pow2_pos((n - 1) as nat);
        assert(le_val(s) >= pow2((n - 1) as nat));
        if u.len() > 0 {
            assert(u.last() == s.last());
        }
        lemma_le_reverse(u);
        let v = le_val(s);
        assert(v / 2 == le_val(u));
        assert((v % 2 == 1) == s[0]);
        assert(binary(v) == binary(v / 2).push(v % 2 == 1));
    }
}

/// `binary(v)` is no longer than `k` bits when `v < 2^k`.
pub(crate) proof fn lemma_binary_len(v: nat, k: nat)
    requires
        v < pow2(k),
    ensures
        binary(v).len() <= k,
    decreases v,
{
    if v > 0 {
        assert(k > 0);
        lemma_binary_len(v / 2, (k - 1) as nat);
    }
}

/// Multiplies the little-endian numeral `acc` by `radix` and adds `d`.
fn mul_add(acc: &Vec<bool>, radix: u32, d: u32) -> (out: Vec<bool>)
    requires
        2 <= radix <= 64,
        d < radix,
    ensures
        le_val(out@) == le_val(acc@) * radix + d,
{
    let mut out: Vec<bool> = Vec::new();
    let mut carry: u32 = d;
    let mut i: usize = 0;
    assert(acc@.take(0) =~= Seq::<bool>::empty());
    assert(le_val(acc@.take(0)) == 0);
    assert(le_val(out@) == 0);
    assert(pow2(0) == 1);
    assert(carry * pow2(0) == carry);
    while i < acc.len()
        invariant
            i <= acc.len(),
            out.len() == i,
            carry < radix,
            2 <= radix <= 64,
            le_val(out@) + carry * pow2(i as nat) == le_val(acc@.take(i as int)) * radix + d,
        decreases acc.len() - i,
    {
        let x: u32 = if acc[i] {
            radix
        } else {
            0
        };
        let t = x + carry;
        let bit = t % 2 == 1;
        let ghost p = pow2(i as nat);
        let ghost lo = le_val(out@);
        let ghost la = le_val(acc@.take(i as int));
        let ghost old_carry = carry;
        let ghost old_out = out@;
        out.push(bit);
        carry = t / 2;
        assert(acc@.take(i + 1).drop_last() =~= acc@.take(i as int));
        assert(out@.drop_last() =~= old_out);
        assert(le_val(out@) == lo + (if bit {
            p
        } else {
            0
        }));
        let ghost b: int = if bit {
            1
        } else {
            0
        };
        let ghost xb: int = if acc[i as int] {
            1
        } else {
            0
        };
        assert(le_val(acc@.take(i + 1)) == la + xb * p);
        proof {
            if acc[i as int] {
                assert(xb * radix == radix);
            } else {
                assert(xb * radix == 0);
            }
        }
        assert(t == xb * radix + old_carry);
        assert(t == b + 2 * carry);
        assert(pow2((i + 1) as nat) == 2 * p);
        assert(lo + b * p + carry * (2 * p) == (la + xb * p) * radix + d) by (nonlinear_arith)
            requires
                lo + old_carry * p == la * radix + d,
                t == xb * radix + old_carry,
                t == b + 2 * carry,
        ;
        i = i + 1;
    }
    assert(acc@.take(acc.len() as int) =~= acc@);
    while carry > 0
        invariant
            le_val(out@) + carry * pow2(out.len() as nat) == le_val(acc@) * radix + d,
        decreases carry,
    {
        let ghost p = pow2(out.len() as nat);
        let ghost lo = le_val(out@);
        let ghost old_carry = carry;
        let ghost old_out = out@;
        let bit = carry % 2 == 1;
        out.push(bit);
        carry = carry / 2;
        assert(out@.drop_last() =~= old_out);
        let ghost b: int = if bit {
            1
        } else {
            0
        };
        assert(le_val(out@) == lo + b * p);
        assert(pow2(out.len() as nat) == 2 * p);
        assert(lo + b * p + carry * (2 * p) == lo + old_carry * p) by (nonlinear_arith)
            requires
                old_carry == b + 2 * carry,
        ;
    }
    out
}

/// The little-endian binary numeral of the base-`radix` digits `ds`.
pub(crate) fn le_from_digits(ds: &Vec<u8>, radix: u32) -> (le: Vec<bool>)
    requires
        2 <= radix <= 64,
        forall|i: int| 0 <= i < ds.len() ==> ds[i] < radix,
    ensures
        le_val(le@) == digits_value(ds@, radix as nat),
{
    let mut acc: Vec<bool> = Vec::new();
    let mut i: usize = 0;
    while i < ds.len()
        invariant
            i <= ds.len(),
            2 <= radix <= 64,
            forall|j: int| 0 <= j < ds.len() ==> ds[j] < radix,
            le_val(acc@) == digits_value(ds@.take(i as int), radix as nat),
        decreases ds.len() - i,
    {
        acc = mul_add(&acc, radix, ds[i] as u32);
        assert(ds@.take(i + 1).drop_last() =~= ds@.take(i as int));
        i = i + 1;
    }
    assert(ds@.take(ds.len() as int) =~= ds@);
    acc
}

/// The value of `n` digits below `radix <= 64` is below `2^(6n)`.
pub(crate) proof fn lemma_digits_value_bound(ds: Seq<u8>, radix: nat)
    requires
        2 <= radix <= 64,
        forall|i: int| 0 <= i < ds.len() ==> ds[i] < radix,
    ensures
        digits_value(ds, radix) < pow2(6 * ds.len()),
    decreases ds.len(),
{
    if ds.len() > 0 {
        let t = ds.drop_last();
        assert forall|i: int| 0 <= i < t.len() implies t[i] < radix by {
            assert(t[i] == ds[i]);
        }
        lemma_digits_value_bound(t, radix);
        let p = pow2(6 * t.len());
        let n = 6 * ds.len();
        assert(pow2(n) == 64 * p) by {
            assert(pow2(n) == 2 * pow2((n - 1) as nat));
            assert(pow2((n - 1) as nat) == 2 * pow2((n - 2) as nat));
            assert(pow2((n - 2) as nat) == 2 * pow2((n - 3) as nat));
            assert(pow2((n - 3) as nat) == 2 * pow2((n - 4) as nat));
            assert(pow2((n - 4) as nat) == 2 * pow2((n - 5) as nat));
            assert(pow2((n - 5) as nat) == 2 * pow2((n - 6) as nat));
            assert((n - 6) as nat == 6 * t.len());
        }
        let v = digits_value(t, radix);
        let d = ds.last();
        assert(v * radix + d < 64 * p) by (nonlinear_arith)
            requires
                v < p,
                d < radix,
                radix <= 64,
        ;
    }
}

/// Reverses a little-endian numeral with high zeros removed.
fn le_to_msb(le: &Vec<bool>) -> (msb: Vec<bool>)
    ensures
        msb@ == binary(le_val(le@)),
{
    let mut n = le.len();
    assert(le@.take(n as int) =~= le@);
    while n > 0 && !le[n - 1]
        invariant
            n <= le.len(),
            le_val(le@.take(n as int)) == le_val(le@),
        decreases n,
    {
        assert(le@.take(n as int).drop_last() =~= le@.take(n - 1));
        n = n - 1;
    }
    let ghost s = le@.take(n as int);
    proof {
        lemma_le_reverse(s);
    }
    let mut msb: Vec<bool> = Vec::new();
    let mut j: usize = 0;
    while j < n
        invariant
            j <= n,
            n <= le.len(),
            s == le@.take(n as int),
            msb@ =~= Seq::new(j as nat, |t: int| s[s.len() - 1 - t]),
        decreases n - j,
    {
        msb.push(le[n - 1 - j]);
        j = j + 1;
    }
    msb
}

/// Is every bit of `v` zero?
fn all_zero(v: &Vec<bool>) -> (z: bool)
    ensures
        z == (bin_val(v@) == 0),
{
    proof {
        lemma_bin_val_zero(v@);
    }
    let mut i: usize = 0;
    while i < v.len()
        invariant
            i <= v.len(),
            forall|j: int| 0 <= j < i ==> !v[j],
        decreases v.len() - i,
    {
        if v[i] {
            proof {
                lemma_bin_val_zero(v@);
                assert(v@[i as int]);
            }
            return false;
        }
        i = i + 1;
    }
    true
}

/// Long division of a binary numeral by ten.
fn divmod10(s: &Vec<bool>) -> (res: (Vec<bool>, u8))
    ensures
        bin_val(s@) == 10 * bin_val(res.0@) + res.1,
        res.1 < 10,
{
    let mut q: Vec<bool> = Vec::new();
    let mut rem: u8 = 0;
    let mut i: usize = 0;
    while i < s.len()
        invariant
            i <= s.len(),
            rem < 10,
            bin_val(s@.take(i as int)) == 10 * bin_val(q@) + rem,
        decreases s.len() - i,
    {
        let r2: u8 = 2 * rem + if s[i] {
            1
        } else {
            0
        };
        assert(s@.take(i + 1).drop_last() =~= s@.take(i as int));
        let ghost old_q = q@;
        if r2 >= 10 {
            q.push(true);
            rem = r2 - 10;
        } else {
            q.push(false);
            rem = r2;
        }
        assert(q@.drop_last() =~= old_q);
        i = i + 1;
    }
    assert(s@.take(s.len() as int) =~= s@);
    (q, rem)
}

fn decimal_digit(d: u8) -> (c: char)
    requires
        d < 10,
    ensures
        c == digit_char(d as nat),
{
    if d == 0 {
        '0'
    } else if d == 1 {
        '1'
    } else if d == 2 {
        '2'
    } else if d == 3 {
        '3'
    } else if d == 4 {
        '4'
    } else if d == 5 {
        '5'
    } else if d == 6 {
        '6'
    } else if d == 7 {
        '7'
    } else if d == 8 {
        '8'
    } else {
        '9'
    }
}

impl BigInt {
    /// The binary digits of the magnitude, most significant first.
    pub closed spec fn magnitude_bits(self) -> Seq<bool> {
        self.magnitude@
    }

    /// The integer `signed(negative, v)`, from the little-endian numeral of `v`.
    pub(crate) fn from_le(negative: bool, le: &Vec<bool>) -> (r: BigInt)
        ensures
            r@ == signed(negative, le_val(le@)),
            r.magnitude_bits() == binary(le_val(le@)),
    {
        let magnitude = le_to_msb(le);
        proof {
            lemma_bin_val_binary(le_val(le@));
        }
        let negative = negative && magnitude.len() > 0;
        BigInt { negative, magnitude }
    }

    /// The magnitude's binary digits, most significant first.
    pub(crate) fn magnitude_ref(&self) -> (m: &Vec<bool>)
        ensures
            m@ == self.magnitude_bits(),
    {
        &self.magnitude
    }

    /// The integer `signed(negative, v)` where `v` is the number the bits of
    /// `bits` from `start` on denote, most significant first.
    pub(crate) fn from_msb(negative: bool, bits: &Bits, start: usize) -> (r: BigInt)
        requires
            start <= bits_of(*bits).len(),
        ensures
            r@ == signed(negative, bin_val(bits_of(*bits).skip(start as int))),
    {
        let n = bitvec_len(bits);
        let ghost s = bits_of(*bits);
        let mut k = start;
        while k < n && !bitvec_get(bits, k)
            invariant
                start <= k <= n,
                n == s.len(),
                s == bits_of(*bits),
                forall|j: int| start <= j < k ==> !s[j],
            decreases n - k,
        {
            k = k + 1;
        }
        let mut magnitude: Vec<bool> = Vec::new();
        let mut j = k;
        while j < n
            invariant
                k <= j <= n,
                n == s.len(),
                s == bits_of(*bits),
                magnitude@ =~= s.subrange(k as int, j as int),
            decreases n - j,
        {
            magnitude.push(bitvec_get(bits, j));
            j = j + 1;
        }
        proof {
            let t = s.skip(start as int);
            assert forall|i: int| 0 <= i < k - start implies !t[i] by {
                assert(t[i] == s[start + i]);
            }
            lemma_bin_val_skip_zeros(t, k - start);
            assert(t.skip(k - start) =~= magnitude@);
            if magnitude@.len() > 0 {
                assert(magnitude@[0] == s[k as int]);
            }
        }
        let negative = negative && magnitude.len() > 0;
        BigInt { negative, magnitude }
    }

    /// Zero.
    pub fn zero() -> (r: BigInt)
        ensures
            r@ == 0,
    {
        BigInt { negative: false, magnitude: Vec::new() }
    }

    /// Is the integer below zero?
    pub fn is_negative(&self) -> (b: bool)
        ensures
            b == (self@ < 0),
    {
        proof {
            use_type_invariant(self);
            lemma_bin_val_zero(self.magnitude@);
        }
        self.negative
    }

    /// The decimal numeral, with a minus sign when negative (as `Integer`'s
    /// `Display` writes it).
    pub fn to_decimal_string(&self) -> (s: String)
        ensures
            s@ == signed_decimal(self@),
    {
        let ghost v0 = bin_val(self.magnitude@);
        let (mut q, r) = divmod10(&self.magnitude);
        let mut out: Vec<char> = Vec::new();
        out.push(decimal_digit(r));
        proof {
            if bin_val(q@) == 0 {
                assert(decimal_chars(v0) =~= out@);
            } else {
                assert(v0 / 10 == bin_val(q@));
                assert(v0 % 10 == r);
                assert(decimal_chars(v0) =~= decimal_chars(bin_val(q@)) + out@);
            }
        }
        while !all_zero(&q)
            invariant
                bin_val(q@) == 0 ==> decimal_chars(v0) == out@,
                bin_val(q@) != 0 ==> decimal_chars(v0) == decimal_chars(bin_val(q@)) + out@,
            decreases bin_val(q@),
        {
            let ghost w = bin_val(q@);
            let (q2, r2) = divmod10(&q);
            let ghost old_out = out@;
            out.insert(0, decimal_digit(r2));
            proof {
                assert(w / 10 == bin_val(q2@));
                assert(w % 10 == r2);
                if bin_val(q2@) == 0 {
                    assert(decimal_chars(w) =~= seq![digit_char(r2 as nat)]);
                } else {
                    assert(decimal_chars(w) =~= decimal_chars(bin_val(q2@)).push(
                        digit_char(r2 as nat),
                    ));
                }
                assert(out@ =~= seq![digit_char(r2 as nat)] + old_out);
                assert(decimal_chars(v0) =~= decimal_chars(w) + old_out);
                if bin_val(q2@) != 0 {
                    assert(decimal_chars(v0) =~= decimal_chars(bin_val(q2@)) + out@);
                }
            }
            q = q2;
        }
        proof {
            use_type_invariant(self);
            lemma_bin_val_zero(self.magnitude@);
        }
        if self.negative {
            out.insert(0, '-');
            assert(out@ =~= seq!['-'] + decimal_chars(v0));
        }
        string_from_chars(&out)
    }
}

} // verus!
