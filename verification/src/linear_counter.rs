//! Linear counting: a bitmap in which every offered string sets one bit,
//! chosen by a digest of the string.

use vstd::prelude::*;
use vstd::string::StringSliceAdditionalSpecFns;

verus! {

/// Whether bit `j` of `word` is set; bit 0 is the least significant one.
pub open spec fn word_bit(word: u32, j: int) -> bool {
    (word >> (j as u32)) & 1u32 == 1u32
}

/// The 32 bits of a word, least significant first.
pub open spec fn word_bits(word: u32) -> Seq<bool> {
    Seq::new(32, |j: int| word_bit(word, j))
}

/// How many entries of `bits` are set.
pub open spec fn count_set(bits: Seq<bool>) -> nat
    decreases bits.len(),
{
    if bits.len() == 0 {
        0
    } else {
        count_set(bits.drop_last()) + if bits.last() {
            1nat
        } else {
            0nat
        }
    }
}

/// How many of the `k` lowest bits of `word` are set.
spec fn count_low(word: u32, k: nat) -> nat
    decreases k,
{
    if k == 0 {
        0
    } else {
        count_low(word, (k - 1) as nat) + if word_bit(word, k - 1) {
            1nat
        } else {
            0nat
        }
    }
}

proof fn lemma_count_low(word: u32, k: nat)
    requires
        k <= 32,
    ensures
        count_set(word_bits(word).take(k as int)) == count_low(word, k),
    decreases k,
{
    let bits = word_bits(word).take(k as int);
    if k > 0 {
        lemma_count_low(word, (k - 1) as nat);
        assert(bits.drop_last() =~= word_bits(word).take(k - 1));
    }
}

/// The number of set bits of `i`, computed on all bit pairs, nibbles and
/// bytes of the word at once.
pub fn pop_count(i: u32) -> (r: u32)
    ensures
        r == count_set(word_bits(i)),
        r <= 32,
{
    let ghost w = i;
    assert(((i >> 1) & 0x55555555) <= i) by (bit_vector);
    let a: u32 = i - ((i >> 1) & 0x55555555);
    assert((a & 0x33333333) + ((a >> 2) & 0x33333333) <= 0x66666666) by (bit_vector);
    let b: u32 = (a & 0x33333333) + ((a >> 2) & 0x33333333);
    assert(b + (b >> 4) <= 0x6ccccccc) by (bit_vector)
        requires
            b <= 0x66666666,
    ;
    let c: u32 = (b + (b >> 4)) & 0x0F0F0F0F;
    let r: u32 = c.wrapping_mul(0x01010101) >> 24;
    proof {
        lemma_swar(w, a, b, c, r);
        lemma_count_low(w, 32);
        assert(word_bits(w).take(32) =~= word_bits(w));
        reveal_with_fuel(count_low, 33);
    }
    r
}

spec fn one_if(word: u32, j: u32) -> u32 {
    if (word >> j) & 1u32 == 1u32 {
        1u32
    } else {
        0u32
    }
}

proof fn lemma_swar(w: u32, a: u32, b: u32, c: u32, r: u32)
    by (bit_vector)
    requires
        a == w - ((w >> 1) & 0x55555555),
        b == (a & 0x33333333) + ((a >> 2) & 0x33333333),
        b <= 0x66666666,
        c == ((b + (b >> 4)) as u32) & 0x0F0F0F0F,
        r == (((c as nat * 0x01010101u32 as nat) % 0x1_0000_0000nat) as u32) >> 24,
    ensures
        r == one_if(w, 0) + one_if(w, 1) + one_if(w, 2) + one_if(w, 3)
            + one_if(w, 4) + one_if(w, 5) + one_if(w, 6) + one_if(w, 7)
            + one_if(w, 8) + one_if(w, 9) + one_if(w, 10) + one_if(w, 11)
            + one_if(w, 12) + one_if(w, 13) + one_if(w, 14) + one_if(w, 15)
            + one_if(w, 16) + one_if(w, 17) + one_if(w, 18) + one_if(w, 19)
            + one_if(w, 20) + one_if(w, 21) + one_if(w, 22) + one_if(w, 23)
            + one_if(w, 24) + one_if(w, 25) + one_if(w, 26) + one_if(w, 27)
            + one_if(w, 28) + one_if(w, 29) + one_if(w, 30) + one_if(w, 31),
{
}

/// The largest number of words a counter may hold: 512 MiB of bitmap, so
/// that every bit index fits in 32 bits.
pub const MAX_BUFFER_SIZE: usize = 134_217_728;

/// Why a counter could not be built.
#[derive(Debug, Clone, Copy, PartialEq, Eq)]
pub enum LinearCounterError {
    /// More than `MAX_BUFFER_SIZE` words were asked for.
    OversizeBitmap,
}

/// The bitmap held by a sequence of words: bit `i` of the bitmap is bit
/// `i % 32` of word `i / 32`.
pub open spec fn bitmap(words: Seq<u32>) -> Seq<bool> {
    Seq::new(32 * words.len(), |i: int| word_bit(words[i / 32], i % 32))
}

/// The number formed by the first four bytes of a digest, big-endian.
pub open spec fn digest_number(digest: Seq<u8>) -> nat {
    (digest[0] as nat) * 0x100_0000 + (digest[1] as nat) * 0x1_0000 + (digest[2] as nat) * 0x100 + (
    digest[3] as nat)
}

/// The bit that a digest selects in a bitmap of `m` bits.
pub open spec fn bit_index(digest: Seq<u8>, m: nat) -> int
    recommends
        m > 0,
{
    (digest_number(digest) % m) as int
}

/// The bitmap after the bit that `digest` selects in it has been set.
pub open spec fn offered(bits: Seq<bool>, digest: Seq<u8>) -> Seq<bool>
    recommends
        bits.len() > 0,
{
    bits.update(bit_index(digest, bits.len()), true)
}

/// The MD5 digest of a byte string.
pub uninterp spec fn md5_digest(data: Seq<u8>) -> Seq<u8>;

/// Calls `md5::compute` on the bytes and unwraps the 16 bytes of its
/// `Digest`. Nothing is proved of the digest: the contract only names it,
/// as a function of the bytes alone.
#[verifier::external_body]
fn md5_compute(data: &[u8]) -> (digest: [u8; 16])
    ensures
        digest@ == md5_digest(data@),
{
    md5::compute(data).0
}

/// A bitmap of fixed length in which bits are only ever set.
pub struct LinearCounter {
    buffer: Vec<u32>,
}

impl View for LinearCounter {
    type V = Seq<bool>;

    /// The bitmap, one entry per bit.
    open spec fn view(&self) -> Seq<bool> {
        bitmap(self.words())
    }
}

proof fn lemma_count_set_concat(a: Seq<bool>, b: Seq<bool>)
    ensures
        count_set(a + b) == count_set(a) + count_set(b),
    decreases b.len(),
{
    if b.len() == 0 {
        assert(a + b =~= a);
    } else {
        lemma_count_set_concat(a, b.drop_last());
        assert((a + b).drop_last() =~= a + b.drop_last());
    }
}

proof fn lemma_bitmap_push(words: Seq<u32>, word: u32)
    ensures
        bitmap(words.push(word)) =~= bitmap(words) + word_bits(word),
{
    let left = bitmap(words.push(word));
    let right = bitmap(words) + word_bits(word);
    assert forall|i: int| 0 <= i < left.len() implies left[i] == right[i] by {
        if i < 32 * words.len() {
            assert(i / 32 < words.len());
        } else {
            assert(i / 32 == words.len());
            assert(i % 32 == i - 32 * words.len());
        }
    }
}

/// Setting a bit raises the population count by one when the bit was
/// clear, and leaves it as it was when the bit was set.
pub proof fn lemma_set_bit_population(bits: Seq<bool>, index: int)
    requires
        0 <= index < bits.len(),
    ensures
        count_set(bits.update(index, true)) == count_set(bits) + if bits[index] {
            0nat
        } else {
            1nat
        },
    decreases bits.len(),
{
    let set = bits.update(index, true);
    if index == bits.len() - 1 {
        assert(set.drop_last() =~= bits.drop_last());
    } else {
        lemma_set_bit_population(bits.drop_last(), index);
        assert(set.drop_last() =~= bits.drop_last().update(index, true));
    }
}

/// Offering keeps the length of the bitmap and every bit that is set, and
/// so never lowers the population count, whatever the digest.
pub proof fn lemma_offer_monotone(bits: Seq<bool>, digest: Seq<u8>)
    requires
        bits.len() > 0,
    ensures
        offered(bits, digest).len() == bits.len(),
        forall|i: int| 0 <= i < bits.len() && bits[i] ==> offered(bits, digest)[i],
        count_set(offered(bits, digest)) >= count_set(bits),
{
    lemma_set_bit_population(bits, bit_index(digest, bits.len()));
}

/// Offering the same digest a second time changes nothing.
pub proof fn lemma_offer_idempotent(bits: Seq<bool>, digest: Seq<u8>)
    requires
        bits.len() > 0,
    ensures
        offered(offered(bits, digest), digest) == offered(bits, digest),
{
    assert(offered(offered(bits, digest), digest) =~= offered(bits, digest));
}

impl LinearCounter {
    /// The words that hold the bitmap.
    pub closed spec fn words(&self) -> Seq<u32> {
        self.buffer@
    }

    /// The counter holds no more words than a counter may.
    pub open spec fn wf(&self) -> bool {
        self.words().len() <= MAX_BUFFER_SIZE
    }

    /// A counter of `size` words, all bits clear; refused when `size` is
    /// over `MAX_BUFFER_SIZE`.
    pub fn new(size: usize) -> (r: Result<LinearCounter, LinearCounterError>)
        ensures
            size <= MAX_BUFFER_SIZE ==> r is Ok && r->Ok_0.wf() && r->Ok_0@ == Seq::new(
                32 * size as nat,
                |i: int| false,
            ),
            size > MAX_BUFFER_SIZE ==> r == Err::<LinearCounter, _>(
                LinearCounterError::OversizeBitmap,
            ),
    {
        if size > MAX_BUFFER_SIZE {
            return Err(LinearCounterError::OversizeBitmap);
        }
        let buffer: Vec<u32> = vec![0u32; size];
        let counter = LinearCounter { buffer };
        proof {
            assert forall|i: int| 0 <= i < 32 * size implies !(#[trigger] counter@[i]) by {
                let j: u32 = (i % 32) as u32;
                assert(counter.words()[i / 32] == 0u32);
                assert((0u32 >> j) & 1u32 != 1u32) by (bit_vector);
            }
            assert(counter@ =~= Seq::new(32 * size as nat, |i: int| false));
        }
        Ok(counter)
    }

    /// The number of words of the bitmap.
    pub fn size(&self) -> (n: usize)
        ensures
            n == self.words().len(),
            32 * n == self@.len(),
    {
        self.buffer.len()
    }

    /// Whether bit `index` of the bitmap is set.
    pub fn bit(&self, index: usize) -> (b: bool)
        requires
            index < self@.len(),
        ensures
            b == self@[index as int],
    {
        let word: u32 = self.buffer[index / 32];
        let j: u32 = (index % 32) as u32;
        (word >> j) & 1u32 == 1u32
    }

    /// Sets the bit that `digest` selects. Setting a bit that is already set
    /// changes nothing.
    pub fn offer_digest(&mut self, digest: &[u8; 16])
        requires
            old(self).wf(),
            old(self)@.len() > 0,
        ensures
            final(self).wf(),
            final(self)@ == offered(old(self)@, digest@),
            count_set(final(self)@) >= count_set(old(self)@),
    {
        let d0: u64 = digest[0] as u64;
        let d1: u64 = digest[1] as u64;
        let d2: u64 = digest[2] as u64;
        let d3: u64 = digest[3] as u64;
        let num: u64 = (d0 << 24) | (d1 << 16) | (d2 << 8) | d3;
        assert(num == d0 * 0x100_0000 + d1 * 0x1_0000 + d2 * 0x100 + d3) by (bit_vector)
            requires
                d0 < 256,
                d1 < 256,
                d2 < 256,
                d3 < 256,
                num == (d0 << 24) | (d1 << 16) | (d2 << 8) | d3,
        ;
        let m: u64 = (self.buffer.len() as u64) * 32;
        let bit_idx: u64 = num % m;
        // The five low bits select the bit within a word, the rest the word.
        let bit_offset: u32 = (bit_idx & 0b11111) as u32;
        let word_offset: usize = (bit_idx >> 5) as usize;
        assert(bit_idx & 0b11111 == bit_idx % 32 && bit_idx >> 5 == bit_idx / 32) by (bit_vector);
        let word: u32 = self.buffer[word_offset];
        let updated: u32 = word | (1u32 << bit_offset);
        self.buffer.set(word_offset, updated);
        proof {
            let before = old(self)@;
            let after = self@;
            assert forall|i: int| 0 <= i < before.len() implies after[i] == before.update(
                bit_idx as int,
                true,
            )[i] by {
                if i / 32 == word_offset as int {
                    let j: u32 = (i % 32) as u32;
                    assert(((word | (1u32 << bit_offset)) >> j) & 1u32 == 1u32 <==> (j
                        == bit_offset || (word >> j) & 1u32 == 1u32)) by (bit_vector)
                        requires
                            j < 32,
                            bit_offset < 32,
                    ;
                }
            }
            assert(after =~= before.update(bit_idx as int, true));
            lemma_set_bit_population(before, bit_idx as int);
        }
    }

    /// Sets the bit that the MD5 digest of the UTF-8 bytes of `s` selects.
    pub fn offer(&mut self, s: &str)
        requires
            old(self).wf(),
            old(self)@.len() > 0,
        ensures
            final(self).wf(),
            final(self)@ == offered(old(self)@, md5_digest(s.spec_bytes())),
            count_set(final(self)@) >= count_set(old(self)@),
    {
        let digest = md5_compute(s.as_bytes());
        self.offer_digest(&digest);
    }

    /// The number of set bits of the bitmap.
    pub fn population_count(&self) -> (r: u64)
        requires
            self.wf(),
        ensures
            r == count_set(self@),
            r <= self@.len(),
    {
        let mut r: u64 = 0;
        let mut i: usize = 0;
        while i < self.buffer.len()
            invariant
                self.wf(),
                i <= self.buffer.len(),
                r == count_set(bitmap(self.words().take(i as int))),
                r <= 32 * i,
            decreases self.buffer.len() - i,
        {
            let ones = pop_count(self.buffer[i]);
            proof {
                let done = self.words().take(i as int);
                assert(self.words().take(i + 1) =~= done.push(self.words()[i as int]));
                lemma_bitmap_push(done, self.words()[i as int]);
                lemma_count_set_concat(bitmap(done), word_bits(self.words()[i as int]));
            }
            r = r + ones as u64;
            i = i + 1;
        }
        assert(self.words().take(i as int) =~= self.words());
        r
    }
}

} // verus!
