//! MSB-first bit output.

use vstd::arithmetic::power2::{lemma_pow2_pos, lemma_pow2_unfold, pow2};
use vstd::prelude::*;

verus! {

/// The `n` low bits of `v`, most significant first.
pub open spec fn be_bits(n: nat, v: nat) -> Seq<bool>
    decreases n,
{
    if n == 0 {
        Seq::empty()
    } else {
        be_bits((n - 1) as nat, v / 2).push(v % 2 == 1)
    }
}

/// The bits of a byte string, each byte most significant bit first.
pub open spec fn bytes_bits(bytes: Seq<u8>) -> Seq<bool>
    decreases bytes.len(),
{
    if bytes.len() == 0 {
        Seq::empty()
    } else {
        bytes_bits(bytes.drop_last()) + be_bits(8, bytes.last() as nat)
    }
}

/// A bit string read as a binary number.
pub open spec fn bits_value(bits: Seq<bool>) -> nat
    decreases bits.len(),
{
    if bits.len() == 0 {
        0
    } else {
        2 * bits_value(bits.drop_last()) + (if bits.last() {
            1nat
        } else {
            0nat
        })
    }
}

/// `n` zero bits.
pub open spec fn zero_bits(n: nat) -> Seq<bool> {
    Seq::new(n, |i: int| false)
}

/// The number of zero bits that bring a string of `len` bits to a byte boundary.
pub open spec fn align_pad(len: nat) -> nat {
    ((8 - len % 8) % 8) as nat
}

pub proof fn lemma_be_bits_len(n: nat, v: nat)
    ensures
        be_bits(n, v).len() == n,
    decreases n,
{
    if n > 0 {
        lemma_be_bits_len((n - 1) as nat, v / 2);
    }
}

/// Bits written with `be_bits` read back as the number they were made from.
pub proof fn lemma_be_bits_value(n: nat, v: nat)
    requires
        v < pow2(n),
    ensures
        be_bits(n, v).len() == n,
        bits_value(be_bits(n, v)) == v,
    decreases n,
{
    if n == 0 {
        vstd::arithmetic::power2::lemma2_to64();
    } else {
        lemma_pow2_unfold(n);
        lemma_be_bits_value((n - 1) as nat, v / 2);
        let s = be_bits((n - 1) as nat, v / 2);
        assert(be_bits(n, v).drop_last() =~= s);
    }
}

/// A bit string is the binary notation of its value.
pub proof fn lemma_bits_of_value(s: Seq<bool>)
    ensures
        s == be_bits(s.len(), bits_value(s)),
    decreases s.len(),
{
    if s.len() > 0 {
        lemma_bits_of_value(s.drop_last());
        let v = bits_value(s);
        assert(v / 2 == bits_value(s.drop_last()) && (v % 2 == 1) == s.last());
        assert(s =~= s.drop_last().push(s.last()));
    } else {
        assert(s =~= Seq::empty());
    }
}

/// The value of a concatenation: the first part moves up by the length of the second.
pub proof fn lemma_bits_value_append(s: Seq<bool>, t: Seq<bool>)
    ensures
        bits_value(s + t) == bits_value(s) * pow2(t.len()) + bits_value(t),
    decreases t.len(),
{
    if t.len() == 0 {
        vstd::arithmetic::power2::lemma2_to64();
        assert(s + t =~= s);
    } else {
        let u = t.drop_last();
        lemma_bits_value_append(s, u);
        lemma_pow2_unfold(t.len());
        assert((s + t).drop_last() =~= s + u);
        assert((s + t).last() == t.last());
        assert(bits_value(s) * pow2(t.len()) == 2 * (bits_value(s) * pow2(u.len())))
            by (nonlinear_arith)
            requires
                pow2(t.len()) == 2 * pow2(u.len()),
        ;
    }
}

pub proof fn lemma_zero_bits_value(n: nat)
    ensures
        bits_value(zero_bits(n)) == 0,
    decreases n,
{
    if n > 0 {
        assert(zero_bits(n).drop_last() =~= zero_bits((n - 1) as nat));
        lemma_zero_bits_value((n - 1) as nat);
    }
}

pub proof fn lemma_bytes_bits_len(bytes: Seq<u8>)
    ensures
        bytes_bits(bytes).len() == 8 * bytes.len(),
    decreases bytes.len(),
{
    if bytes.len() > 0 {
        lemma_bytes_bits_len(bytes.drop_last());
        lemma_be_bits_len(8, bytes.last() as nat);
    }
}

/// A growing bit string, packed MSB-first into bytes.
pub struct BitWriter {
    /// Completed bytes.
    bytes: Vec<u8>,
    /// The bits after the last completed byte, right-aligned.
    partial: u8,
    /// How many bits `partial` holds.
    filled: u8,
}

impl View for BitWriter {
    type V = Seq<bool>;

    /// The bits written so far, in order.
    closed spec fn view(&self) -> Seq<bool> {
        bytes_bits(self.bytes@) + be_bits(self.filled as nat, self.partial as nat)
    }
}

impl BitWriter {
    /// The unfinished byte holds fewer than eight bits.
    pub closed spec fn well_formed(&self) -> bool {
        &&& self.filled < 8
        &&& (self.partial as nat) < pow2(self.filled as nat)
    }

    /// An empty bit string.
    pub fn new() -> (w: Self)
        ensures
            w.well_formed(),
            w@ == Seq::<bool>::empty(),
    {
        proof {
            vstd::arithmetic::power2::lemma2_to64();
        }
        let w = BitWriter { bytes: Vec::new(), partial: 0, filled: 0 };
        assert(w@ =~= Seq::<bool>::empty());
        w
    }

    /// Appends one bit: a one unless `bit` is zero.
    pub fn write_bit(&mut self, bit: u8)
        requires
            old(self).well_formed(),
        ensures
            final(self).well_formed(),
            final(self)@ == old(self)@.push(bit != 0),
    {
        let ghost before = *self;
        let b: u8 = if bit != 0 {
            1
        } else {
            0
        };
        proof {
            vstd::arithmetic::power2::lemma2_to64();
            vstd::arithmetic::power2::lemma_pow2_unfold((self.filled + 1) as nat);
            if self.filled < 7 {
                vstd::arithmetic::power2::lemma_pow2_strictly_increases(
                    self.filled as nat,
                    7,
                );
            }
        }
        let next: u8 = self.partial * 2 + b;
        let ghost tail = be_bits((before.filled + 1) as nat, next as nat);
        proof {
            assert(tail == be_bits(before.filled as nat, before.partial as nat).push(bit != 0));
            assert(bytes_bits(before.bytes@) + tail =~= before@.push(bit != 0));
        }
        if self.filled == 7 {
            self.bytes.push(next);
            self.partial = 0;
            self.filled = 0;
            proof {
                assert(self.bytes@.drop_last() =~= before.bytes@);
                assert(self@ =~= bytes_bits(before.bytes@) + tail);
            }
        } else {
            self.partial = next;
            self.filled = self.filled + 1;
        }
    }

    /// Appends the `n` low bits of `value`, most significant first.
    pub fn write_bits(&mut self, n: u32, value: u32)
        requires
            old(self).well_formed(),
            n <= 32,
        ensures
            final(self).well_formed(),
            final(self)@ == old(self)@ + be_bits(n as nat, value as nat % pow2(n as nat)),
    {
        let ghost before = self@;
        let mut i: u32 = n;
        assert(before + be_bits(0, 0) =~= before);
        while i > 0
            invariant
                i <= n <= 32,
                self.well_formed(),
                i < n ==> self@ == before + be_bits((n - i) as nat, (value >> i) as nat),
                i == n ==> self@ == before,
            decreases i,
        {
            i = i - 1;
            let bit: u32 = (value >> i) & 1;
            proof {
                let lo = value >> i;
                assert(bit == lo % 2) by (bit_vector)
                    requires
                        bit == lo & 1,
                ;
                if i + 1 < 32 {
                    let j = (i + 1) as u32;
                    assert(value >> j == (value >> i) / 2) by (bit_vector)
                        requires
                            j == i + 1,
                            i < 31,
                    ;
                }
                if i + 1 == n {
                    assert(be_bits(1, lo as nat) =~= seq![lo % 2 == 1]) by {
                        reveal_with_fuel(be_bits, 2);
                    }
                }
                assert(be_bits((n - i) as nat, lo as nat) == be_bits(
                    (n - i - 1) as nat,
                    lo as nat / 2,
                ).push(lo % 2 == 1));
                assert(before + be_bits((n - i) as nat, lo as nat) =~= (before + be_bits(
                    (n - i - 1) as nat,
                    lo as nat / 2,
                )).push(lo % 2 == 1));
            }
            self.write_bit(bit as u8);
        }
        proof {
            assert(value >> 0u32 == value) by (bit_vector);
            lemma_be_bits_mod(n as nat, value as nat);
        }
    }

    /// Appends zero bits up to the next byte boundary.
    pub fn byte_align(&mut self)
        requires
            old(self).well_formed(),
        ensures
            final(self).well_formed(),
            final(self)@ == old(self)@ + zero_bits(align_pad(old(self)@.len())),
            final(self)@.len() % 8 == 0,
    {
        let ghost before = self@;
        proof {
            self.lemma_len();
            assert(before + zero_bits(0) =~= before);
        }
        let ghost mut k: nat = 0;
        while self.filled != 0
            invariant
                self.well_formed(),
                self@ == before + zero_bits(k),
                self.filled == (before.len() + k) % 8,
                k <= align_pad(before.len()),
            decreases (8 - self.filled) % 8,
        {
            let ghost prev = *self;
            self.write_bit(0);
            proof {
                self.lemma_len();
                assert(before + zero_bits(k + 1) =~= (before + zero_bits(k)).push(false));
                k = k + 1;
            }
        }
        proof {
            self.lemma_len();
        }
    }

    /// Whether the string ends on a byte boundary.
    pub fn is_aligned(&self) -> (aligned: bool)
        requires
            self.well_formed(),
        ensures
            aligned == (self@.len() % 8 == 0),
    {
        proof {
            self.lemma_len();
        }
        self.filled == 0
    }

    /// The bytes of the string, the last one padded with zero bits.
    pub fn into_bytes(self) -> (bytes: Vec<u8>)
        requires
            self.well_formed(),
        ensures
            bytes_bits(bytes@) == self@ + zero_bits(align_pad(self@.len())),
    {
        let mut w = self;
        w.byte_align();
        proof {
            w.lemma_len();
            assert(w@ =~= bytes_bits(w.bytes@));
        }
        w.bytes
    }

    proof fn lemma_len(&self)
        requires
            self.well_formed(),
        ensures
            self@.len() == 8 * self.bytes@.len() + self.filled,
            self@.len() % 8 == self.filled,
    {
        lemma_bytes_bits_len(self.bytes@);
        lemma_be_bits_len(self.filled as nat, self.partial as nat);
    }
}

/// The bits of a number are those of its high part and then those of its low part.
pub proof fn lemma_be_bits_split(n: nat, k: nat, high: nat, low: nat)
    requires
        low < pow2(k),
    ensures
        be_bits(n + k, high * pow2(k) + low) == be_bits(n, high) + be_bits(k, low),
    decreases k,
{
    if k == 0 {
        vstd::arithmetic::power2::lemma2_to64();
        assert(high * pow2(k) == high) by (nonlinear_arith)
            requires
                pow2(k) == 1,
        ;
        assert(be_bits(n, high) + be_bits(0, low) =~= be_bits(n, high));
    } else {
        let j = (k - 1) as nat;
        lemma_pow2_unfold(k);
        let half = high * pow2(j);
        assert(high * pow2(k) == 2 * half) by (nonlinear_arith)
            requires
                half == high * pow2(j),
                pow2(k) == 2 * pow2(j),
        ;
        let v = high * pow2(k) + low;
        assert(v / 2 == half + low / 2 && v % 2 == low % 2);
        lemma_be_bits_split(n, j, high, low / 2);
        assert(be_bits(n, high) + be_bits(k, low) =~= (be_bits(n, high) + be_bits(j, low / 2)).push(
            low % 2 == 1,
        ));
    }
}

/// `be_bits` sees only the low bits of the number.
pub proof fn lemma_be_bits_mod(n: nat, v: nat)
    ensures
        be_bits(n, v % pow2(n)) == be_bits(n, v),
    decreases n,
{
    lemma_pow2_pos(n);
    if n > 0 {
        let p = pow2((n - 1) as nat);
        let low = v % pow2(n);
        lemma_pow2_unfold(n);
        lemma_pow2_pos((n - 1) as nat);
        lemma_be_bits_mod((n - 1) as nat, v / 2);
        vstd::arithmetic::div_mod::lemma_mod_breakdown(v as int, 2, p as int);
        assert(low == 2 * ((v / 2) % p) + v % 2);
        assert(low / 2 == (v / 2) % p && low % 2 == v % 2);
    }
}

} // verus!
