//! A fixed-size bit set stored in 32-bit words.
use vstd::prelude::*;

use crate::bytes::{lemma_u32_be_of_decoded, lemma_u32_be_prefix, push_u32_be, u32_be, ByteReader, ReadError};

verus! {

/// Whether bit `j` (counted from the least significant) of `w` is set.
pub open spec fn word_bit(w: u32, j: u32) -> bool {
    (w >> j) & 1u32 == 1u32
}

/// Number of 32-bit words needed for `capacity` bits.
pub open spec fn words_for(capacity: nat) -> nat {
    if capacity % 32 == 0 {
        capacity / 32
    } else {
        capacity / 32 + 1
    }
}

/// The bits held by a sequence of words, word `i / 32`, bit `i % 32` at position `i`.
pub open spec fn bits_of(words: Seq<u32>) -> Seq<bool> {
    Seq::new(32 * words.len(), |i: int| word_bit(words[i / 32], (i % 32) as u32))
}

/// The big-endian serialisation of a sequence of words.
pub open spec fn words_be(words: Seq<u32>) -> Seq<u8>
    decreases words.len(),
{
    if words.len() == 0 {
        seq![]
    } else {
        u32_be(words[0]) + words_be(words.drop_first())
    }
}

/// Appending a word appends its bytes.
pub proof fn lemma_words_be_push(ws: Seq<u32>, w: u32)
    ensures
        words_be(ws.push(w)) == words_be(ws) + u32_be(w),
    decreases ws.len(),
{
    if ws.len() == 0 {
        let e = ws.push(w).drop_first();
        assert(e =~= Seq::<u32>::empty());
        assert(words_be(e) == Seq::<u8>::empty());
        assert(words_be(ws) == Seq::<u8>::empty());
        assert(words_be(ws.push(w)) =~= words_be(ws) + u32_be(w));
    } else {
        lemma_words_be_push(ws.drop_first(), w);
        assert(ws.push(w).drop_first() =~= ws.drop_first().push(w));
        assert(words_be(ws.push(w)) =~= words_be(ws) + u32_be(w));
    }
}

/// The bytes of as many words followed by anything determine the words and what follows.
pub proof fn lemma_words_be_prefix(a: Seq<u32>, b: Seq<u32>, s: Seq<u8>, t: Seq<u8>)
    requires
        a.len() == b.len(),
        words_be(a) + s == words_be(b) + t,
    ensures
        a == b,
        s == t,
    decreases a.len(),
{
    if a.len() == 0 {
        assert(s =~= words_be(a) + s);
        assert(t =~= words_be(b) + t);
    } else {
        let s1 = words_be(a.drop_first()) + s;
        let t1 = words_be(b.drop_first()) + t;
        assert(words_be(a) + s =~= u32_be(a[0]) + s1);
        assert(words_be(b) + t =~= u32_be(b[0]) + t1);
        lemma_u32_be_prefix(a[0], b[0], s1, t1);
        lemma_words_be_prefix(a.drop_first(), b.drop_first(), s, t);
        assert(a =~= seq![a[0]] + a.drop_first());
        assert(b =~= seq![b[0]] + b.drop_first());
    }
}

proof fn lemma_or_bit(w: u32, j: u32, k: u32)
    requires
        j < 32,
        k < 32,
    ensures
        word_bit(w | (1u32 << j), k) == (k == j || word_bit(w, k)),
{
    assert(((w | (1u32 << j)) >> k) & 1u32 == 1u32 <==> (k == j || (w >> k) & 1u32 == 1u32))
        by (bit_vector)
        requires
            j < 32,
            k < 32,
    ;
}

proof fn lemma_xor_bit(w: u32, j: u32, k: u32)
    requires
        j < 32,
        k < 32,
        word_bit(w, j),
    ensures
        word_bit(w ^ (1u32 << j), k) == (k != j && word_bit(w, k)),
{
    assert(((w ^ (1u32 << j)) >> k) & 1u32 == 1u32 <==> (k != j && (w >> k) & 1u32 == 1u32))
        by (bit_vector)
        requires
            j < 32,
            k < 32,
            (w >> j) & 1u32 == 1u32,
    ;
}

proof fn lemma_and_bit(w: u32, j: u32)
    requires
        j < 32,
    ensures
        (w & (1u32 << j) != 0) == word_bit(w, j),
{
    assert((w & (1u32 << j) != 0u32) <==> (w >> j) & 1u32 == 1u32) by (bit_vector)
        requires
            j < 32,
    ;
}

proof fn lemma_zero_bit(j: u32)
    ensures
        !word_bit(0u32, j),
{
    assert((0u32 >> j) & 1u32 != 1u32) by (bit_vector);
}

/// A bit set of fixed size; every index below its size can be set, tested and cleared.
#[derive(Debug)]
pub struct Bits {
    bits: Vec<u32>,
}

impl View for Bits {
    type V = Seq<bool>;

    closed spec fn view(&self) -> Seq<bool> {
        bits_of(self.bits@)
    }
}

/// What `Bits::write_to` writes, `Bits::read_from` reads back: bytes that
/// start with the words of a bit set of the same size give that bit set, and
/// leave what follows them.
pub proof fn lemma_bits_write_read(written: Bits, read: Bits, after_written: Seq<u8>, after_read: Seq<u8>)
    requires
        read.words().len() == written.words().len(),
        words_be(read.words()) + after_read == words_be(written.words()) + after_written,
    ensures
        read@ == written@,
        after_read == after_written,
{
    lemma_words_be_prefix(read.words(), written.words(), after_read, after_written);
}

impl Bits {
    /// The words that hold the bits.
    pub closed spec fn words(&self) -> Seq<u32> {
        self.bits@
    }

    /// The bits are those of the words.
    pub proof fn lemma_view_is_words(&self)
        ensures
            self@ == bits_of(self.words()),
    {
    }

    /// A set of `capacity` bits, rounded up to whole words, all unset.
    pub fn new(capacity: usize) -> (r: Self)
        ensures
            r.words().len() == words_for(capacity as nat),
            r@.len() == 32 * words_for(capacity as nat),
            r@.len() >= capacity,
            forall|i: int| 0 <= i < r@.len() ==> !#[trigger] r@[i],
    {
        let n: usize = if capacity % 32 == 0 {
            capacity / 32
        } else {
            capacity / 32 + 1
        };
        let mut bits: Vec<u32> = Vec::new();
        let mut k: usize = 0;
        while k < n
            invariant
                k <= n,
                bits@.len() == k,
                forall|i: int| 0 <= i < k ==> bits@[i] == 0u32,
            decreases n - k,
        {
            bits.push(0u32);
            k = k + 1;
        }
        let r = Bits { bits };
        assert forall|i: int| 0 <= i < r@.len() implies !#[trigger] r@[i] by {
            lemma_zero_bit((i % 32) as u32);
        }
        r
    }

    /// Number of bits held.
    pub fn len(&self) -> (n: usize)
        requires
            self@.len() <= usize::MAX,
        ensures
            n == self@.len(),
    {
        self.bits.len() * 32
    }

    /// Sets the bit at `index`; returns whether it was unset before.
    pub fn set_bit(&mut self, index: usize) -> (was_unset: bool)
        requires
            index < old(self)@.len(),
        ensures
            final(self)@ == old(self)@.update(index as int, true),
            was_unset == !old(self)@[index as int],
            final(self).words().len() == old(self).words().len(),
    {
        let w = index / 32;
        let j = (index % 32) as u32;
        let old_word = self.bits[w];
        let bit: u32 = 1u32 << j;
        let will_write = old_word & bit == 0;
        self.bits.set(w, old_word | bit);
        proof {
            lemma_and_bit(old_word, j);
            let ghost o = old(self)@;
            assert forall|i: int| 0 <= i < self@.len() implies #[trigger] self@[i] == o.update(
                index as int,
                true,
            )[i] by {
                if i / 32 == w as int {
                    lemma_or_bit(old_word, j, (i % 32) as u32);
                }
            }
            assert(self@ =~= o.update(index as int, true));
        }
        will_write
    }

    /// Whether the bit at `index` is set.
    pub fn is_bit_set(&self, index: usize) -> (set: bool)
        requires
            index < self@.len(),
        ensures
            set == self@[index as int],
    {
        let j = (index % 32) as u32;
        let word = self.bits[index / 32];
        proof {
            lemma_and_bit(word, j);
        }
        word & (1u32 << j) != 0
    }

    /// Clears the bit at `index`.
    pub fn unset_bit(&mut self, index: usize)
        requires
            index < old(self)@.len(),
        ensures
            final(self)@ == old(self)@.update(index as int, false),
            final(self).words().len() == old(self).words().len(),
    {
        if self.is_bit_set(index) {
            let w = index / 32;
            let j = (index % 32) as u32;
            let old_word = self.bits[w];
            self.bits.set(w, old_word ^ (1u32 << j));
            proof {
                let ghost o = old(self)@;
                assert forall|i: int| 0 <= i < self@.len() implies #[trigger] self@[i]
                    == o.update(index as int, false)[i] by {
                    if i / 32 == w as int {
                        lemma_xor_bit(old_word, j, (i % 32) as u32);
                    }
                }
                assert(self@ =~= o.update(index as int, false));
            }
        } else {
            assert(self@ =~= old(self)@.update(index as int, false));
        }
    }

    /// Appends the words, big-endian, to `out`.
    pub fn write_to(&self, out: &mut Vec<u8>)
        ensures
            final(out)@ == old(out)@ + words_be(self.words()),
    {
        let mut k: usize = 0;
        while k < self.bits.len()
            invariant
                k <= self.bits@.len(),
                out@ == old(out)@ + words_be(self.bits@.take(k as int)),
            decreases self.bits@.len() - k,
        {
            push_u32_be(out, self.bits[k]);
            proof {
                assert(self.bits@.take(k + 1) =~= self.bits@.take(k as int).push(self.bits@[k as int]));
                lemma_words_be_push(self.bits@.take(k as int), self.bits@[k as int]);
                assert(out@ =~= old(out)@ + words_be(self.bits@.take(k + 1)));
            }
            k = k + 1;
        }
        assert(self.bits@.take(k as int) =~= self.bits@);
    }

    /// Reads the words of a set of `capacity` bits, big-endian.
    /// Fails when fewer bytes remain than the words take.
    pub fn read_from(reader: &mut ByteReader, capacity: usize) -> (r: Result<Self, ReadError>)
        requires
            old(reader).wf(),
        ensures
            final(reader).wf(),
            old(reader).rest().len() >= 4 * words_for(capacity as nat) <==> r is Ok,
            r matches Ok(b) ==> {
                &&& b.words().len() == words_for(capacity as nat)
                &&& old(reader).rest() == words_be(b.words()) + final(reader).rest()
            },
    {
        let n: usize = if capacity % 32 == 0 {
            capacity / 32
        } else {
            capacity / 32 + 1
        };
        let ghost start = reader.rest();
        let mut bits: Vec<u32> = Vec::new();
        let mut k: usize = 0;
        while k < n
            invariant
                k <= n,
                n == words_for(capacity as nat),
                bits@.len() == k,
                reader.wf(),
                start.len() >= 4 * k,
                start == old(reader).rest(),
                start == words_be(bits@) + reader.rest(),
                reader.rest().len() == start.len() - 4 * k,
            decreases n - k,
        {
            let ghost before = reader.rest();
            match reader.read_u32_be() {
                Ok(v) => {
                    proof {
                        lemma_u32_be_of_decoded(before[0], before[1], before[2], before[3]);
                        assert(before =~= u32_be(v) + reader.rest());
                        let ghost nb = bits@.push(v);
                        lemma_words_be_push(bits@, v);
                        assert(start =~= words_be(nb) + reader.rest());
                    }
                    bits.push(v);
                },
                Err(e) => {
                    return Err(e);
                },
            }
            k = k + 1;
        }
        Ok(Bits { bits })
    }
}

} // verus!
