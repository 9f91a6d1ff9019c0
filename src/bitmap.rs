//! A bitmap over a range of blocks, each block 64 words of 64 bits.
use vstd::prelude::*;

verus! {

/// Bits in one block of the bitmap.
pub const BLOCK_BITS: usize = 4096;

/// Words of 64 bits in one block.
pub const WORDS_PER_BLOCK: usize = 64;

/// Block, word within the block, and bit within the word of bit `bit`.
pub fn decomposition(bit: usize) -> (r: (usize, usize, usize))
    ensures
        r.0 == bit / BLOCK_BITS,
        r.1 == (bit % BLOCK_BITS) / 64,
        r.2 == bit % 64,
        r.0 * BLOCK_BITS + r.1 * 64 + r.2 == bit,
{
    let block_pos = bit / BLOCK_BITS;
    let rest = bit % BLOCK_BITS;
    assert(rest % 64 == bit % 64) by (nonlinear_arith)
        requires
            rest == bit % 4096,
    ;
    (block_pos, rest / 64, rest % 64)
}

/// Bit `i` of the bitmap stored in `words`.
pub open spec fn bit_set(words: Seq<u64>, i: int) -> bool {
    (words[i / 64] >> ((i % 64) as u64)) & 1u64 == 1u64
}

/// Manager of a bitmap area: where it starts on disk and how many blocks it has.
pub struct Bitmap {
    start_block_id: usize,
    blocks: usize,
}

impl Bitmap {
    pub closed spec fn spec_blocks(&self) -> usize {
        self.blocks
    }

    pub closed spec fn spec_start(&self) -> usize {
        self.start_block_id
    }

    /// Number of bits, as a spec value.
    pub open spec fn bits(&self) -> int {
        self.spec_blocks() * BLOCK_BITS
    }

    /// A bitmap of `blocks` blocks starting at block `start_block_id`.
    pub fn new(start_block_id: usize, blocks: usize) -> (r: Self)
        ensures
            r.spec_start() == start_block_id,
            r.spec_blocks() == blocks,
    {
        Self { start_block_id, blocks }
    }

    /// How many bits the bitmap has.
    pub fn maximum(&self) -> (r: usize)
        requires
            self.bits() <= usize::MAX,
        ensures
            r == self.bits(),
    {
        self.blocks * BLOCK_BITS
    }

    /// Sets the lowest clear bit of the area held in `words` and returns its
    /// index; `None` when every bit is set.
    pub fn allocate(&self, words: &mut Vec<u64>) -> (r: Option<usize>)
        requires
            old(words)@.len() == self.spec_blocks() * WORDS_PER_BLOCK,
            self.bits() <= usize::MAX,
        ensures
            final(words)@.len() == old(words)@.len(),
            r.is_none() ==> final(words)@ == old(words)@ && forall|i: int| 0 <= i < self.bits() ==> #[trigger] bit_set(old(words)@, i),
            r matches Some(b) ==> {
                &&& b < self.bits()
                &&& !bit_set(old(words)@, b as int)
                &&& forall|i: int| 0 <= i < b ==> #[trigger] bit_set(old(words)@, i)
                &&& bit_set(final(words)@, b as int)
                &&& forall|i: int| 0 <= i < self.bits() && i != b ==> #[trigger] bit_set(final(words)@, i) == bit_set(old(words)@, i)
            },
    {
        let n = words.len();
        let mut w: usize = 0;
        while w < n
            invariant
                n == words@.len(),
                n == self.spec_blocks() * WORDS_PER_BLOCK,
                n * 64 <= usize::MAX,
                words@ == old(words)@,
                w <= n,
                forall|i: int| 0 <= i < w * 64 ==> #[trigger] bit_set(words@, i),
            decreases n - w,
        {
            let word = words[w];
            let mut j: u64 = 0;
            while j < 64
                invariant
                    j <= 64,
                    w < n,
                    n == words@.len(),
                    word == words@[w as int],
                    words@ == old(words)@,
                    n * 64 <= usize::MAX,
                    n == self.spec_blocks() * WORDS_PER_BLOCK,
                    forall|i: int| 0 <= i < w * 64 + j ==> #[trigger] bit_set(words@, i),
                decreases 64 - j,
            {
                assert((w * 64 + j) / 64 == w as int && (w * 64 + j) % 64 == j as int);
                if (word >> j) & 1u64 == 0 {
                    assert(w * 64 + 64 <= n * 64) by (nonlinear_arith)
                        requires
                            w < n,
                    ;
                    let nw = word | (1u64 << j);
                    words.set(w, nw);
                    let b = w * 64 + j as usize;
                    proof {
                        assert forall|i: int| 0 <= i < self.bits() && i != b implies #[trigger] bit_set(words@, i) == bit_set(old(words)@, i) by {
                            assert(0 <= i / 64 < n);
                            if i / 64 != w as int {
                                assert(words@[i / 64] == old(words)@[i / 64]);
                            } else {
                                let q = (i % 64) as u64;
                                assert(q != j);
                                assert(((nw >> q) & 1u64 == 1u64) == ((word >> q) & 1u64 == 1u64)) by (bit_vector)
                                    requires
                                        nw == word | (1u64 << j),
                                        j < 64u64,
                                        q < 64u64,
                                        q != j,
                                ;
                            }
                        }
                        assert((nw >> j) & 1u64 == 1u64) by (bit_vector)
                            requires
                                nw == word | (1u64 << j),
                                j < 64u64,
                        ;
                        assert(b / 64 == w as int && b % 64 == j as int);
                    }
                    return Some(b);
                }
                let x = (word >> j) & 1u64;
                assert(x == 1u64) by (bit_vector)
                    requires
                        x == (word >> j) & 1u64,
                        x != 0u64,
                ;
                assert(bit_set(words@, w * 64 + j));
                j = j + 1;
            }
            w = w + 1;
        }
        None
    }

    /// Clears bit `bit`, which must be set.
    pub fn dealloc(&self, words: &mut Vec<u64>, bit: usize)
        requires
            old(words)@.len() == self.spec_blocks() * WORDS_PER_BLOCK,
            bit < self.bits(),
            bit_set(old(words)@, bit as int),
        ensures
            final(words)@.len() == old(words)@.len(),
            !bit_set(final(words)@, bit as int),
            forall|i: int| 0 <= i < self.bits() && i != bit ==> #[trigger] bit_set(final(words)@, i) == bit_set(old(words)@, i),
    {
        let (block_pos, bits64_pos, inner_pos) = decomposition(bit);
        let idx = block_pos * WORDS_PER_BLOCK + bits64_pos;
        assert(idx == bit / 64) by (nonlinear_arith)
            requires
                block_pos == bit / 4096,
                bits64_pos == (bit % 4096) / 64,
                idx == block_pos * 64 + bits64_pos,
        ;
        let word = words[idx];
        let j = inner_pos as u64;
        assert(bit / 64 == idx as int && bit % 64 == j as int);
        assert(word >= (1u64 << j) && (word - (1u64 << j)) == (word & !(1u64 << j))) by (bit_vector)
            requires
                (word >> j) & 1u64 == 1u64,
                j < 64u64,
        ;
        let nw = word - (1u64 << j);
        words.set(idx, nw);
        proof {
            assert((nw >> j) & 1u64 == 0u64) by (bit_vector)
                requires
                    nw == word & !(1u64 << j),
                    j < 64u64,
            ;
            assert forall|i: int| 0 <= i < self.bits() && i != bit implies #[trigger] bit_set(words@, i) == bit_set(old(words)@, i) by {
                if i / 64 != idx as int {
                    assert(words@[i / 64] == old(words)@[i / 64]);
                } else {
                    let q = (i % 64) as u64;
                    assert(q != j);
                    assert(((nw >> q) & 1u64 == 1u64) == ((word >> q) & 1u64 == 1u64)) by (bit_vector)
                        requires
                            nw == word & !(1u64 << j),
                            j < 64u64,
                            q < 64u64,
                            q != j,
                    ;
                }
            }
        }
    }
}

} // verus!
