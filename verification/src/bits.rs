//! MSB-first packing of variable-width codes into a byte stream.
//!
//! The writer law: after any sequence of `write_bits(v, n)` calls followed by
//! `flush`, the bytes hold exactly the concatenation of each `v`'s low `n`
//! bits, most significant first, zero-padded to a byte boundary at the end.

use vstd::prelude::*;

verus! {

/// Bit `i` (0 = most significant) of the byte `x`.
pub open spec fn byte_bit(x: u8, i: int) -> bool {
    (x >> (7 - i) as u8) & 1 == 1
}

/// The 8 bits of a byte, most significant first.
pub open spec fn byte_bits(x: u8) -> Seq<bool> {
    Seq::new(8, |i: int| byte_bit(x, i))
}

/// All bits of a byte stream, each byte most significant bit first.
pub open spec fn stream_bits(s: Seq<u8>) -> Seq<bool>
    decreases s.len(),
{
    if s.len() == 0 {
        Seq::empty()
    } else {
        stream_bits(s.drop_last()) + byte_bits(s.last())
    }
}

/// The low `n` bits of `v`, most significant first.
pub open spec fn value_bits(v: u64, n: nat) -> Seq<bool> {
    Seq::new(n, |i: int| (v >> (n - 1 - i) as u64) & 1 == 1)
}

/// Zero bits needed to extend a stream of `n` bits to a byte boundary.
pub open spec fn pad_len(n: nat) -> nat {
    (((8 - n % 8) % 8) as nat)
}

pub proof fn lemma_stream_bits_len(s: Seq<u8>)
    ensures
        stream_bits(s).len() == 8 * s.len(),
    decreases s.len(),
{
    if s.len() > 0 {
        lemma_stream_bits_len(s.drop_last());
    }
}

pub proof fn lemma_stream_bits_push(s: Seq<u8>, x: u8)
    ensures
        stream_bits(s.push(x)) == stream_bits(s) + byte_bits(x),
{
    assert(s.push(x).drop_last() =~= s);
    assert(stream_bits(s.push(x)) == stream_bits(s.push(x).drop_last()) + byte_bits(x));
}

/// Bit `8 * m + t` of a byte stream is bit `t` of byte `m`.
pub proof fn lemma_stream_bits_index(s: Seq<u8>, m: int, t: int)
    requires
        0 <= m < s.len(),
        0 <= t < 8,
    ensures
        stream_bits(s).len() == 8 * s.len(),
        stream_bits(s)[8 * m + t] == byte_bit(s[m], t),
    decreases s.len(),
{
    lemma_stream_bits_len(s);
    lemma_stream_bits_len(s.drop_last());
    if m < s.len() - 1 {
        lemma_stream_bits_index(s.drop_last(), m, t);
    }
}

proof fn lemma_byte_bits_injective(x: u8, y: u8)
    requires
        forall|j: int| 0 <= j < 8 ==> #[trigger] byte_bit(x, j) == byte_bit(y, j),
    ensures
        x == y,
{
    assert forall|j: int| 0 <= j < 8 implies #[trigger] byte_bit(x, j) == byte_bit(y, j) by {}
    assert(byte_bit(x, 0) == byte_bit(y, 0));
    assert(byte_bit(x, 1) == byte_bit(y, 1));
    assert(byte_bit(x, 2) == byte_bit(y, 2));
    assert(byte_bit(x, 3) == byte_bit(y, 3));
    assert(byte_bit(x, 4) == byte_bit(y, 4));
    assert(byte_bit(x, 5) == byte_bit(y, 5));
    assert(byte_bit(x, 6) == byte_bit(y, 6));
    assert(byte_bit(x, 7) == byte_bit(y, 7));
    assert(x == y) by (bit_vector)
        requires
            ((x >> 7u8) & 1 == 1) == ((y >> 7u8) & 1 == 1),
            ((x >> 6u8) & 1 == 1) == ((y >> 6u8) & 1 == 1),
            ((x >> 5u8) & 1 == 1) == ((y >> 5u8) & 1 == 1),
            ((x >> 4u8) & 1 == 1) == ((y >> 4u8) & 1 == 1),
            ((x >> 3u8) & 1 == 1) == ((y >> 3u8) & 1 == 1),
            ((x >> 2u8) & 1 == 1) == ((y >> 2u8) & 1 == 1),
            ((x >> 1u8) & 1 == 1) == ((y >> 1u8) & 1 == 1),
            ((x >> 0u8) & 1 == 1) == ((y >> 0u8) & 1 == 1),
    ;
}

/// A byte stream is determined by its bits: equal bit sequences of equal
/// byte length come from equal bytes.
pub proof fn lemma_stream_bits_injective(a: Seq<u8>, b: Seq<u8>)
    requires
        a.len() == b.len(),
        stream_bits(a) == stream_bits(b),
    ensures
        a == b,
    decreases a.len(),
{
    lemma_stream_bits_len(a);
    lemma_stream_bits_len(b);
    if a.len() > 0 {
        assert forall|j: int| 0 <= j < 8 implies #[trigger] byte_bit(a.last(), j) == byte_bit(
            b.last(),
            j,
        ) by {
            let x = 8 * (a.len() - 1) + j;
            assert(stream_bits(a)[x] == byte_bits(a.last())[j]);
            assert(stream_bits(b)[x] == byte_bits(b.last())[j]);
            assert(byte_bits(a.last())[j] == byte_bit(a.last(), j));
            assert(byte_bits(b.last())[j] == byte_bit(b.last(), j));
        }
        lemma_byte_bits_injective(a.last(), b.last());
        assert forall|x: int| 0 <= x < stream_bits(a.drop_last()).len() implies stream_bits(
            a.drop_last(),
        )[x] == stream_bits(b.drop_last())[x] by {
            assert(stream_bits(a)[x] == stream_bits(a.drop_last())[x]);
            assert(stream_bits(b)[x] == stream_bits(b.drop_last())[x]);
        }
        lemma_stream_bits_len(a.drop_last());
        lemma_stream_bits_len(b.drop_last());
        assert(stream_bits(a.drop_last()) =~= stream_bits(b.drop_last()));
        lemma_stream_bits_injective(a.drop_last(), b.drop_last());
        assert forall|i: int| 0 <= i < a.len() implies a[i] == b[i] by {
            if i < a.len() - 1 {
                assert(a.drop_last()[i] == a[i]);
                assert(b.drop_last()[i] == b[i]);
            } else {
                assert(a.last() == a[i] && b.last() == b[i]);
            }
        }
        assert(a =~= b);
    } else {
        assert(a =~= b);
    }
}

proof fn lemma_zero_bit(j: u8)
    by (bit_vector)
    requires
        j < 8,
    ensures
        ((0u8 >> (7 - j) as u8) & 1) != 1,
{
}

proof fn lemma_zero_buffer_clear()
    ensures
        forall|j: int| 0 <= j < 8 ==> !byte_bit(0u8, j),
{
    assert forall|j: int| 0 <= j < 8 implies !byte_bit(0u8, j) by {
        lemma_zero_bit(j as u8);
    }
}

proof fn lemma_or_set_preserves_other(b: u8, bl: u8, j: u8)
    by (bit_vector)
    requires
        bl < 8,
        j < 8,
        j != bl,
    ensures
        ((b | (1u8 << (7 - bl) as u8)) >> (7 - j) as u8) & 1 == (b >> (7 - j) as u8) & 1,
{
}

proof fn lemma_or_sets_bit(b: u8, bl: u8)
    by (bit_vector)
    requires
        bl < 8,
    ensures
        ((b | (1u8 << (7 - bl) as u8)) >> (7 - bl) as u8) & 1 == 1,
{
}

/// Packs bits MSB-first into bytes; at most 7 bits are buffered between calls.
pub struct BitWriter {
    out: Vec<u8>,
    buffer: u8,
    buffer_len: u8,
}

impl BitWriter {
    /// The buffer holds fewer than 8 bits and its unused low positions are zero.
    pub closed spec fn wf(self) -> bool {
        self.buffer_len < 8 && (forall|j: int|
            self.buffer_len <= j < 8 ==> !byte_bit(self.buffer, j))
    }

    /// Every bit accepted so far, in the order written.
    pub closed spec fn bits(self) -> Seq<bool> {
        stream_bits(self.out@) + Seq::new(self.buffer_len as nat, |i: int| byte_bit(self.buffer, i))
    }

    /// The bytes already emitted; `bits()` extends their bits by the buffered tail.
    pub closed spec fn byte_view(self) -> Seq<u8> {
        self.out@
    }

    pub fn new() -> (w: BitWriter)
        ensures
            w.wf(),
            w.bits() == Seq::<bool>::empty(),
            w.byte_view() == Seq::<u8>::empty(),
    {
        let w = BitWriter { out: Vec::new(), buffer: 0, buffer_len: 0 };
        proof {
            lemma_zero_buffer_clear();
            assert(w.bits() =~= Seq::<bool>::empty());
            assert(w.byte_view() =~= Seq::<u8>::empty());
        }
        w
    }

    fn push_bit(&mut self, bit: bool)
        requires
            old(self).wf(),
        ensures
            final(self).wf(),
            final(self).bits() == old(self).bits().push(bit),
    {
        let ghost old_self = *self;
        let bl = self.buffer_len;
        if bit {
            self.buffer = self.buffer | (1u8 << (7 - bl) as u8);
        }
        proof {
            assert forall|j: int| 0 <= j < 8 && j != bl implies byte_bit(self.buffer, j)
                == byte_bit(old_self.buffer, j) by {
                if bit {
                    lemma_or_set_preserves_other(old_self.buffer, bl, j as u8);
                }
            }
            if bit {
                lemma_or_sets_bit(old_self.buffer, bl);
                assert(byte_bit(self.buffer, bl as int));
            } else {
                assert(!byte_bit(self.buffer, bl as int));
            }
        }
        self.buffer_len = bl + 1;
        proof {
            assert(Seq::new(self.buffer_len as nat, |i: int| byte_bit(self.buffer, i))
                =~= Seq::new(old_self.buffer_len as nat, |i: int| byte_bit(old_self.buffer, i))
                    .push(bit));
            assert(self.bits() =~= old_self.bits().push(bit));
        }
        if self.buffer_len == 8 {
            let ghost mid = *self;
            let full = self.buffer;
            self.out.push(full);
            self.buffer = 0;
            self.buffer_len = 0;
            proof {
                lemma_zero_buffer_clear();
                lemma_stream_bits_push(mid.out@, full);
                assert(byte_bits(full) =~= Seq::new(8, |i: int| byte_bit(full, i)));
                assert(self.bits() =~= stream_bits(mid.out@) + byte_bits(full));
                assert(mid.bits() =~= stream_bits(mid.out@)
                    + Seq::new(8, |i: int| byte_bit(full, i)));
                assert(self.bits() =~= mid.bits());
                assert(self.wf());
            }
        } else {
            proof {
                assert(self.buffer_len < 8);
                assert forall|j: int| self.buffer_len <= j < 8 implies !byte_bit(self.buffer, j) by {
                    assert(byte_bit(self.buffer, j) == byte_bit(old_self.buffer, j));
                    assert(!byte_bit(old_self.buffer, j));
                }
                assert(self.wf());
            }
        }
    }

    /// Append the low `num_bits` bits of `value`, most significant first.
    /// Bits of `value` above `num_bits` are ignored.
    pub fn write_bits(&mut self, value: u64, num_bits: u8)
        requires
            old(self).wf(),
            1 <= num_bits <= 32,
        ensures
            final(self).wf(),
            final(self).bits() == old(self).bits() + value_bits(value, num_bits as nat),
    {
        let ghost orig = *self;
        let n = num_bits;
        let mut k: u8 = 0;
        while k < n
            invariant
                self.wf(),
                k <= n,
                1 <= n <= 32,
                self.bits() == orig.bits() + value_bits(value, n as nat).take(k as int),
            decreases n - k,
        {
            let bit = (value >> (n - 1 - k) as u64) & 1 == 1;
            proof {
                assert(value_bits(value, n as nat)[k as int] == bit);
                assert(value_bits(value, n as nat).take(k + 1)
                    =~= value_bits(value, n as nat).take(k as int).push(bit));
            }
            self.push_bit(bit);
            k += 1;
        }
        proof {
            assert(value_bits(value, n as nat).take(n as int) =~= value_bits(value, n as nat));
        }
    }

    /// Emit any buffered partial byte, right-padded with zero bits.
    pub fn flush(&mut self)
        requires
            old(self).wf(),
        ensures
            final(self).wf(),
            final(self).bits() == stream_bits(final(self).byte_view()),
            final(self).bits() == old(self).bits()
                + Seq::new(pad_len(old(self).bits().len()), |i: int| false),
    {
        let ghost orig = *self;
        proof {
            lemma_stream_bits_len(self.out@);
        }
        if self.buffer_len > 0 {
            let full = self.buffer;
            let ghost bl = self.buffer_len as nat;
            self.out.push(full);
            self.buffer = 0;
            self.buffer_len = 0;
            proof {
                lemma_zero_buffer_clear();
                lemma_stream_bits_push(orig.out@, full);
                assert(byte_bits(full) =~= Seq::new(bl, |i: int| byte_bit(full, i))
                    + Seq::new((8 - bl) as nat, |i: int| false));
                assert(orig.bits().len() == 8 * orig.out@.len() + bl);
                assert(pad_len(orig.bits().len()) == 8 - bl) by {
                    assert(orig.bits().len() % 8 == bl) by (nonlinear_arith)
                        requires
                            orig.bits().len() == 8 * orig.out@.len() + bl,
                            0 < bl < 8,
                    ;
                }
                assert(self.bits() =~= stream_bits(self.out@));
                assert(self.bits() =~= orig.bits()
                    + Seq::new(pad_len(orig.bits().len()), |i: int| false));
            }
        } else {
            proof {
                assert(orig.bits().len() % 8 == 0) by (nonlinear_arith)
                    requires
                        orig.bits().len() == 8 * orig.out@.len(),
                ;
                assert(self.bits() =~= stream_bits(self.out@));
                assert(self.bits() =~= orig.bits()
                    + Seq::new(pad_len(orig.bits().len()), |i: int| false));
            }
        }
    }

    /// Hand back the accumulated bytes.
    pub fn into_bytes(self) -> (r: Vec<u8>)
        ensures
            r@ == self.byte_view(),
    {
        self.out
    }
}

} // verus!
