//! A bit vector with rank and select: 32-bit words, grouped eight to a
//! 256-bit chunk, with the count of ones before each chunk and before each
//! word within its chunk kept in tables that are rebuilt after changes.
use vstd::prelude::*;

verus! {

/// Bit `j` of the word `w`.
pub open spec fn bit_at(w: u32, j: nat) -> bool {
    j < 32 && (w >> (j as u32)) & 1u32 == 1u32
}

/// The number of set bits among the lowest `k` bits of `w`.
pub open spec fn pop(w: u32, k: nat) -> nat
    decreases k,
{
    if k == 0 {
        0
    } else {
        pop(w, (k - 1) as nat) + if bit_at(w, (k - 1) as nat) { 1nat } else { 0 }
    }
}

/// The number of `true` among `s[lo .. hi]`.
pub open spec fn ones(s: Seq<bool>, lo: int, hi: int) -> nat
    decreases hi - lo,
{
    if hi <= lo {
        0
    } else {
        ones(s, lo, hi - 1) + if s[hi - 1] { 1nat } else { 0 }
    }
}

/// The bits of the words, word by word from the lowest bit.
pub open spec fn bits_of(words: Seq<u32>) -> Seq<bool> {
    Seq::new((words.len() * 32) as nat, |i: int| bit_at(words[i / 32], (i % 32) as nat))
}

pub proof fn lemma_ones_split(s: Seq<bool>, a: int, b: int, c: int)
    requires
        a <= b <= c,
    ensures
        ones(s, a, c) == ones(s, a, b) + ones(s, b, c),
    decreases c - b,
{
    if c > b {
        lemma_ones_split(s, a, b, c - 1);
    }
}

/// Ones are monotone in the right end.
pub proof fn lemma_ones_monotone(s: Seq<bool>, a: int, b: int, c: int)
    requires
        a <= b <= c,
    ensures
        ones(s, a, b) <= ones(s, a, c),
{
    lemma_ones_split(s, a, b, c);
}

pub proof fn lemma_ones_bound(s: Seq<bool>, a: int, b: int)
    requires
        a <= b,
    ensures
        ones(s, a, b) <= b - a,
    decreases b - a,
{
    if b > a {
        lemma_ones_bound(s, a, b - 1);
    }
}

proof fn lemma_pop_bound(w: u32, k: nat)
    ensures
        pop(w, k) <= k,
    decreases k,
{
    if k > 0 {
        lemma_pop_bound(w, (k - 1) as nat);
    }
}

/// The ones of word `wi` below bit `k` are `pop(words[wi], k)`.
proof fn lemma_ones_word(words: Seq<u32>, wi: int, k: nat)
    requires
        0 <= wi < words.len(),
        k <= 32,
    ensures
        ones(bits_of(words), 32 * wi, 32 * wi + k) == pop(words[wi], k),
    decreases k,
{
    if k > 0 {
        lemma_ones_word(words, wi, (k - 1) as nat);
        let i = 32 * wi + k - 1;
        assert(i / 32 == wi && i % 32 == k - 1) by (nonlinear_arith)
            requires
                i == 32 * wi + k - 1,
                1 <= k <= 32,
        ;
    }
}

/// Number of set bits of `w`.
fn popcount(w: u32) -> (c: u32)
    ensures
        c == pop(w, 32),
        c <= 32,
{
    let mut c: u32 = 0;
    let mut j: u32 = 0;
    while j < 32
        invariant
            j <= 32,
            c == pop(w, j as nat),
            c <= j,
        decreases 32 - j,
    {
        let b = (w >> j) & 1;
        proof {
            assert((w >> j) & 1u32 <= 1u32) by (bit_vector);
        }
        c = c + b;
        j = j + 1;
    }
    c
}

proof fn lemma_masked_bit(w: u32, b: u32, j: u32)
    requires
        b < 32,
        j < 32,
    ensures
        (((w & (((1u32 << b) - 1) as u32)) >> j) & 1u32 == 1u32) == (j < b && (w >> j) & 1u32 == 1u32),
{
    assert((((w & (((1u32 << b) - 1) as u32)) >> j) & 1u32 == 1u32) == (j < b && (w >> j) & 1u32 == 1u32)) by (bit_vector)
        requires
            b < 32,
            j < 32,
    ;
}

proof fn lemma_pop_masked(w: u32, b: u32, k: nat)
    requires
        b < 32,
        k <= 32,
    ensures
        pop(w & (((1u32 << b) - 1) as u32), k) == pop(w, if k < b { k } else { b as nat }),
    decreases k,
{
    if k > 0 {
        lemma_pop_masked(w, b, (k - 1) as nat);
        lemma_masked_bit(w, b, (k - 1) as u32);
    }
}

/// Setting bit `bo` of `w` to `value` changes that bit only.
proof fn lemma_bit_set(w: u32, bo: u32, value: bool, j: u32)
    requires
        bo < 32,
        j < 32,
    ensures
        ((((if value { w | (1u32 << bo) } else { w & !(1u32 << bo) }) >> j) & 1u32) == 1u32)
            == (if j == bo { value } else { (w >> j) & 1u32 == 1u32 }),
{
    if value {
        assert(((((w | (1u32 << bo)) >> j) & 1u32) == 1u32) == (if j == bo { true } else { (w >> j) & 1u32 == 1u32 })) by (bit_vector)
            requires
                bo < 32,
                j < 32,
        ;
    } else {
        assert(((((w & !(1u32 << bo)) >> j) & 1u32) == 1u32) == (if j == bo { false } else { (w >> j) & 1u32 == 1u32 })) by (bit_vector)
            requires
                bo < 32,
                j < 32,
        ;
    }
}

pub struct SuccinctIndexableDictionary {
    len: usize,
    bit: Vec<u32>,
    num_chunks: usize,
    num_blocks: usize,
    chunks: Vec<u16>,
    blocks: Vec<Vec<u8>>,
    changed: bool,
}

impl View for SuccinctIndexableDictionary {
    type V = Seq<bool>;

    /// All stored bits, the length rounded up to whole chunks.
    closed spec fn view(&self) -> Seq<bool> {
        bits_of(self.bit@)
    }
}

impl SuccinctIndexableDictionary {
    /// The length the dictionary was made with.
    pub closed spec fn len_spec(&self) -> nat {
        self.len as nat
    }

    /// The count tables hold the ones before each chunk and, within each
    /// chunk, before each word.
    pub closed spec fn tables_ok(&self) -> bool {
        &&& forall|i: int| 0 <= i <= self.num_chunks ==> #[trigger] self.chunks@[i] == ones(self@, 0, 256 * i)
        &&& forall|i: int, j: int| 0 <= i < self.num_chunks && 0 <= j < 8 ==> #[trigger] self.blocks@[i]@[j] == ones(self@, 256 * i, 256 * i + 32 * j)
    }

    pub closed spec fn wf(&self) -> bool {
        &&& self.num_blocks == 8
        &&& self.len + 255 <= usize::MAX
        &&& self.num_chunks == (self.len + 255) / 256
        &&& self.bit@.len() == self.num_chunks * 8
        &&& self.chunks@.len() == self.num_chunks + 1
        &&& self.blocks@.len() == self.num_chunks
        &&& forall|i: int| 0 <= i < self.num_chunks ==> #[trigger] self.blocks@[i]@.len() == 8
        &&& (self.changed || self.tables_ok())
    }

    /// Bits per chunk.
    pub fn chunk_size() -> (n: usize)
        ensures
            n == 256,
    {
        256
    }

    /// Bits per word.
    pub fn block_size() -> (n: usize)
        ensures
            n == 32,
    {
        32
    }

    /// A dictionary of length `len` over the words `bit`, cut or padded
    /// with zero words to whole chunks.
    pub fn from_vec(len: usize, bit: Vec<u32>) -> (d: Self)
        requires
            len + 256 <= usize::MAX,
        ensures
            d.wf(),
            d.len_spec() == len,
            d@.len() == 256 * ((len + 255) / 256),
            forall|i: int| 0 <= i < d@.len() ==> #[trigger] d@[i] == (i < 32 * bit@.len() && bits_of(bit@)[i]),
    {
        let num_chunks = (len + Self::chunk_size() - 1) / Self::chunk_size();
        let num_blocks = Self::chunk_size() / Self::block_size();
        let mut bit = bit;
        let ghost old_bit = bit@;
        proof {
            assert(num_chunks * 8 <= usize::MAX) by (nonlinear_arith)
                requires
                    num_chunks == (len + 255) / 256,
                    len + 256 <= usize::MAX,
            ;
        }
        bit.resize(num_chunks * num_blocks, 0u32);
        let mut chunks: Vec<u16> = Vec::new();
        let mut i: usize = 0;
        while i <= num_chunks
            invariant
                num_chunks < usize::MAX,
                i <= num_chunks + 1,
                chunks@.len() == i,
            decreases num_chunks + 1 - i,
        {
            chunks.push(0);
            i += 1;
        }
        let mut blocks: Vec<Vec<u8>> = Vec::new();
        let mut i: usize = 0;
        while i < num_chunks
            invariant
                i <= num_chunks,
                blocks@.len() == i,
                forall|k: int| 0 <= k < i ==> #[trigger] blocks@[k]@.len() == 8,
            decreases num_chunks - i,
        {
            let mut row: Vec<u8> = Vec::new();
            let mut j: usize = 0;
            while j < 8
                invariant
                    j <= 8,
                    row@.len() == j,
                decreases 8 - j,
            {
                row.push(0);
                j += 1;
            }
            blocks.push(row);
            i += 1;
        }
        let d = SuccinctIndexableDictionary { len, bit, num_chunks, num_blocks, chunks, blocks, changed: true };
        proof {
            assert forall|i: int| 0 <= i < d@.len() implies #[trigger] d@[i] == (i < 32 * old_bit.len() && bits_of(old_bit)[i]) by {
                let w = i / 32;
                if w < old_bit.len() {
                    assert(d.bit@[w] == old_bit[w]) by {
                        if num_chunks * 8 <= old_bit.len() {
                            assert(d.bit@ == old_bit.subrange(0, (num_chunks * 8) as int));
                        } else {
                            assert(d.bit@.subrange(0, old_bit.len() as int) == old_bit);
                            assert(d.bit@.subrange(0, old_bit.len() as int)[w] == d.bit@[w]);
                        }
                    }
                    assert(i < 32 * old_bit.len()) by (nonlinear_arith)
                        requires
                            w == i / 32,
                            w < old_bit.len(),
                            i >= 0,
                    ;
                } else {
                    assert(d.bit@[w] == 0u32);
                    assert(!(i < 32 * old_bit.len())) by (nonlinear_arith)
                        requires
                            w == i / 32,
                            w >= old_bit.len(),
                            i >= 0,
                    ;
                    let sh = (i % 32) as u32;
                    assert((0u32 >> sh) & 1u32 == 0u32) by (bit_vector);
                }
            }
        }
        d
    }

    /// A dictionary of `len` zero bits.
    pub fn new(len: usize) -> (d: Self)
        requires
            len + 256 <= usize::MAX,
        ensures
            d.wf(),
            d.len_spec() == len,
            d@.len() == 256 * ((len + 255) / 256),
            forall|i: int| 0 <= i < d@.len() ==> !#[trigger] d@[i],
    {
        Self::from_vec(len, Vec::new())
    }

    pub fn len(&self) -> (n: usize)
        ensures
            n == self.len_spec(),
    {
        self.len
    }

    /// Sets bit `idx` to `value`.
    pub fn set(&mut self, idx: usize, value: bool)
        requires
            old(self).wf(),
            idx < old(self)@.len(),
        ensures
            final(self).wf(),
            final(self).len_spec() == old(self).len_spec(),
            final(self)@ == old(self)@.update(idx as int, value),
    {
        self.changed = true;
        let bi = idx / Self::block_size();
        let bo = idx % Self::block_size();
        let w = self.bit[bi];
        let bou = bo as u32;
        let nw = if value { w | (1u32 << bou) } else { w & !(1u32 << bou) };
        let ghost old_bit = self.bit@;
        self.bit.set(bi, nw);
        proof {
            assert forall|i: int| 0 <= i < self@.len() implies #[trigger] self@[i] == old(self)@.update(idx as int, value)[i] by {
                let wi = i / 32;
                let j = (i % 32) as u32;
                if wi == bi {
                    lemma_bit_set(w, bou, value, j);
                    if i == idx {
                    } else {
                        assert(j != bou);
                    }
                } else {
                    assert(i != idx);
                    assert(self.bit@[wi] == old_bit[wi]);
                }
            }
            assert(self@ =~= old(self)@.update(idx as int, value));
        }
    }

    /// Bit `idx`.
    pub fn access(&self, idx: usize) -> (b: bool)
        requires
            self.wf(),
            idx < self@.len(),
        ensures
            b == self@[idx as int],
    {
        let bi = idx / Self::block_size();
        let bo = idx % Self::block_size();
        (self.bit[bi] >> (bo as u32)) & 1 == 1
    }

    /// Bit `idx`.
    pub fn get(&self, idx: usize) -> (b: bool)
        requires
            self.wf(),
            idx < self@.len(),
        ensures
            b == self@[idx as int],
    {
        self.access(idx)
    }

    /// The count of ones fits the chunk table when a rebuild is due.
    pub closed spec fn counts_fit(&self) -> bool {
        self.changed ==> ones(self@, 0, self@.len() as int) <= 65535
    }

    /// Few enough ones make the counts fit.
    pub proof fn lemma_counts_fit(&self)
        requires
            ones(self@, 0, self@.len() as int) <= 65535,
        ensures
            self.counts_fit(),
    {
    }

    /// Recomputes the count tables.
    fn build(&mut self)
        requires
            old(self).wf(),
            ones(old(self)@, 0, old(self)@.len() as int) <= 65535,
        ensures
            final(self).wf(),
            !final(self).changed,
            final(self).tables_ok(),
            final(self)@ == old(self)@,
            final(self).len == old(self).len,
            final(self).bit == old(self).bit,
    {
        self.changed = false;
        self.chunks.set(0, 0);
        let ghost v = self@;
        let nc = self.num_chunks;
        let bl = self.bit.len();
        let mut i: usize = 0;
        while i < nc
            invariant
                nc == self.num_chunks,
                bl == 8 * nc,
                v == self@,
                self@ == old(self)@,
                self.len == old(self).len,
                self.bit == old(self).bit,
                self.num_chunks == old(self).num_chunks,
                self.num_blocks == 8,
                self.len + 255 <= usize::MAX,
                self.num_chunks == (self.len + 255) / 256,
                self.bit@.len() == self.num_chunks * 8,
                self.chunks@.len() == self.num_chunks + 1,
                self.blocks@.len() == self.num_chunks,
                forall|k: int| 0 <= k < self.num_chunks ==> #[trigger] self.blocks@[k]@.len() == 8,
                !self.changed,
                ones(v, 0, v.len() as int) <= 65535,
                i <= nc,
                forall|k: int| 0 <= k <= i ==> #[trigger] self.chunks@[k] == ones(v, 0, 256 * k),
                forall|k: int, j: int| 0 <= k < i && 0 <= j < 8 ==> #[trigger] self.blocks@[k]@[j] == ones(v, 256 * k, 256 * k + 32 * j),
            decreases nc - i,
        {
            let mut row: Vec<u8> = Vec::new();
            row.push(0);
            let mut j: usize = 0;
            proof {
                assert(8 * i + 8 <= 8 * nc) by (nonlinear_arith)
                    requires
                        i < nc,
                ;
            }
            while j < 7
                invariant
                    v == self@,
                    v == bits_of(self.bit@),
                    self.bit@.len() == nc * 8,
                    i < nc,
                    8 * i + 8 <= 8 * nc,
                    bl == 8 * nc,
                    j <= 7,
                    row@.len() == j + 1,
                    forall|k: int| 0 <= k <= j ==> #[trigger] row@[k] == ones(v, 256 * i, 256 * i + 32 * k),
                    forall|k: int| 0 <= k <= j ==> #[trigger] row@[k] <= 32 * k,
                decreases 7 - j,
            {
                let c = popcount(self.bit[i * 8 + j]);
                proof {
                    let wi = (8 * i + j) as int;
                    lemma_ones_word(self.bit@, wi, 32);
                    assert(32 * wi == 256 * i + 32 * j);
                    lemma_ones_split(v, 256 * i, 256 * i + 32 * j, 256 * i + 32 * j + 32);
                }
                let nv = row[j] + c as u8;
                row.push(nv);
                j += 1;
            }
            let c = popcount(self.bit[i * 8 + 7]);
            proof {
                let wi = (8 * i + 7) as int;
                lemma_ones_word(self.bit@, wi, 32);
                assert(32 * wi == 256 * i + 224);
                lemma_ones_split(v, 256 * i, 256 * i + 224, 256 * i + 256);
                lemma_ones_split(v, 0, 256 * i, 256 * i + 256);
                assert(256 * (i + 1) <= v.len()) by (nonlinear_arith)
                    requires
                        i < nc,
                        v.len() == nc * 8 * 32,
                ;
                lemma_ones_monotone(v, 0, 256 * (i + 1), v.len() as int);
                assert(256 * i + 256 == 256 * (i + 1));
            }
            let next = self.chunks[i] + row[7] as u16 + c as u16;
            let ghost old_blocks = self.blocks@;
            let ghost old_chunks = self.chunks@;
            self.blocks.set(i, row);
            self.chunks.set(i + 1, next);
            proof {
                assert forall|k: int| 0 <= k < self.num_chunks implies #[trigger] self.blocks@[k]@.len() == 8 by {
                    if k != i {
                        assert(self.blocks@[k] == old_blocks[k]);
                    }
                }
                assert forall|k: int| 0 <= k <= i + 1 implies #[trigger] self.chunks@[k] == ones(v, 0, 256 * k) by {
                    if k <= i {
                        assert(self.chunks@[k] == old_chunks[k]);
                    }
                }
                assert forall|k: int, j: int| 0 <= k < i + 1 && 0 <= j < 8 implies #[trigger] self.blocks@[k]@[j] == ones(v, 256 * k, 256 * k + 32 * j) by {
                    if k < i {
                        assert(self.blocks@[k] == old_blocks[k]);
                    }
                }
            }
            i += 1;
        }
    }

    fn check(&mut self)
        requires
            old(self).wf(),
            old(self).counts_fit(),
        ensures
            final(self).wf(),
            !final(self).changed,
            final(self)@ == old(self)@,
            final(self).len == old(self).len,
    {
        if self.changed {
            self.build();
        }
    }

    /// The count tables are up to date.
    pub closed spec fn built(&self) -> bool {
        !self.changed
    }

    /// Brings the count tables up to date.
    pub fn prepare(&mut self)
        requires
            old(self).wf(),
            old(self).counts_fit(),
        ensures
            final(self).wf(),
            final(self).built(),
            final(self).counts_fit(),
            final(self)@ == old(self)@,
            final(self).len_spec() == old(self).len_spec(),
    {
        self.check();
    }

    /// The number of ones in `[0, idx)`, from tables that are up to date.
    pub fn rank1_built(&self, idx: usize) -> (r: usize)
        requires
            self.wf(),
            self.built(),
            idx < self@.len(),
        ensures
            r == ones(self@, 0, idx as int),
            r <= idx,
    {
        let ci = idx / Self::chunk_size();
        let bi = idx % Self::chunk_size() / Self::block_size();
        let bo = idx % Self::block_size();
        proof {
            assert(idx == 256 * ci + 32 * bi + bo);
            assert(ci < self.num_chunks) by (nonlinear_arith)
                requires
                    idx < self.num_chunks * 8 * 32,
                    ci == idx / 256,
            ;
            assert(8 * ci + bi < 8 * self.num_chunks) by (nonlinear_arith)
                requires
                    ci < self.num_chunks,
                    bi < 8,
            ;
        }
        let w = self.bit[ci * self.num_blocks + bi];
        let bou = bo as u32;
        proof {
            assert(1u32 << bou >= 1u32) by (bit_vector)
                requires
                    bou < 32,
            ;
        }
        let masked = w & ((1u32 << bou) - 1);
        let c = popcount(masked);
        proof {
            let v = self@;
            lemma_pop_masked(w, bou, 32);
            lemma_ones_word(self.bit@, (8 * ci + bi) as int, bo as nat);
            assert(32 * (8 * ci + bi) == 256 * ci + 32 * bi);
            lemma_ones_split(v, 0, 256 * ci, 256 * ci + 32 * bi);
            lemma_ones_split(v, 0, 256 * ci + 32 * bi, idx as int);
            lemma_ones_bound(v, 0, idx as int);
        }
        self.chunks[ci] as usize + self.blocks[ci][bi] as usize + c as usize
    }

    /// The number of zeros in `[0, idx)`, from tables that are up to date.
    pub fn rank0_built(&self, idx: usize) -> (r: usize)
        requires
            self.wf(),
            self.built(),
            idx < self@.len(),
        ensures
            r == idx - ones(self@, 0, idx as int),
    {
        let r1 = self.rank1_built(idx);
        idx - r1
    }

    /// The number of ones in `[0, idx)`.
    pub fn rank1(&mut self, idx: usize) -> (r: usize)
        requires
            old(self).wf(),
            old(self).counts_fit(),
            idx < old(self)@.len(),
        ensures
            final(self).wf(),
            final(self).counts_fit(),
            final(self)@ == old(self)@,
            final(self).len_spec() == old(self).len_spec(),
            r == ones(old(self)@, 0, idx as int),
    {
        self.check();
        self.rank1_built(idx)
    }

    /// The number of zeros in `[0, idx)`.
    pub fn rank0(&mut self, idx: usize) -> (r: usize)
        requires
            old(self).wf(),
            old(self).counts_fit(),
            idx < old(self)@.len(),
        ensures
            final(self).wf(),
            final(self).counts_fit(),
            final(self)@ == old(self)@,
            final(self).len_spec() == old(self).len_spec(),
            r == idx - ones(old(self)@, 0, idx as int),
    {
        let r1 = self.rank1(idx);
        proof {
            lemma_ones_bound(old(self)@, 0, idx as int);
        }
        idx - r1
    }

    /// The number of bits equal to `k` in `[0, idx)`.
    pub fn rank(&mut self, k: bool, idx: usize) -> (r: usize)
        requires
            old(self).wf(),
            old(self).counts_fit(),
            idx < old(self)@.len(),
        ensures
            final(self).wf(),
            final(self).counts_fit(),
            final(self)@ == old(self)@,
            final(self).len_spec() == old(self).len_spec(),
            r == if k { ones(old(self)@, 0, idx as int) } else { (idx - ones(old(self)@, 0, idx as int)) as nat },
    {
        if k {
            self.rank1(idx)
        } else {
            self.rank0(idx)
        }
    }

    /// The number of ones in `[l, r)`.
    pub fn rank1_in(&mut self, l: usize, r: usize) -> (n: usize)
        requires
            old(self).wf(),
            old(self).counts_fit(),
            l <= r < old(self)@.len(),
        ensures
            final(self).wf(),
            final(self).counts_fit(),
            final(self)@ == old(self)@,
            final(self).len_spec() == old(self).len_spec(),
            n == ones(old(self)@, l as int, r as int),
    {
        let a = self.rank1(r);
        let b = self.rank1(l);
        proof {
            lemma_ones_split(old(self)@, 0, l as int, r as int);
        }
        a - b
    }

    /// The number of zeros in `[l, r)`.
    pub fn rank0_in(&mut self, l: usize, r: usize) -> (n: usize)
        requires
            old(self).wf(),
            old(self).counts_fit(),
            l <= r < old(self)@.len(),
        ensures
            final(self).wf(),
            final(self).counts_fit(),
            final(self)@ == old(self)@,
            final(self).len_spec() == old(self).len_spec(),
            n == (r - l) - ones(old(self)@, l as int, r as int),
    {
        let a = self.rank0(r);
        let b = self.rank0(l);
        proof {
            lemma_ones_split(old(self)@, 0, l as int, r as int);
            lemma_ones_bound(old(self)@, l as int, r as int);
        }
        a - b
    }

    /// The number of bits equal to `k` in `[l, r)`.
    pub fn rank_in(&mut self, k: bool, l: usize, r: usize) -> (n: usize)
        requires
            old(self).wf(),
            old(self).counts_fit(),
            l <= r < old(self)@.len(),
        ensures
            final(self).wf(),
            final(self).counts_fit(),
            final(self)@ == old(self)@,
            final(self).len_spec() == old(self).len_spec(),
            n == if k { ones(old(self)@, l as int, r as int) } else { ((r - l) - ones(old(self)@, l as int, r as int)) as nat },
    {
        if k {
            self.rank1_in(l, r)
        } else {
            self.rank0_in(l, r)
        }
    }


    /// The end of the prefix holding the `num`-th one: the least `j` with
    /// `num` ones in `[0, j)` (`Some(0)` for `0`, `None` past the last one).
    pub fn select1(&mut self, num: usize) -> (r: Option<usize>)
        requires
            old(self).wf(),
            old(self).counts_fit(),
            num == 0 || old(self).len_spec() < old(self)@.len(),
            old(self).len_spec() <= usize::MAX / 2,
        ensures
            final(self).wf(),
            final(self).counts_fit(),
            final(self)@ == old(self)@,
            final(self).len_spec() == old(self).len_spec(),
            num == 0 ==> r == Some(0usize),
            num > 0 ==> (r is None <==> ones(old(self)@, 0, old(self).len_spec() as int) < num),
            num > 0 && r is Some ==> {
                &&& 1 <= r.unwrap() <= old(self).len_spec()
                &&& ones(old(self)@, 0, r.unwrap() as int) == num
                &&& forall|i: int| 0 <= i < r.unwrap() ==> #[trigger] ones(old(self)@, 0, i) < num
            },
    {
        if num == 0 {
            return Some(0);
        }
        let ghost v = self@;
        let n = self.len();
        if self.rank1(n) < num {
            return None;
        }
        let mut wa: usize = 0;
        let mut ac: usize = n;
        while wa + 1 < ac
            invariant
                self.wf(),
                self.counts_fit(),
                self@ == v,
                self.len_spec() == n,
                n < v.len(),
                n <= usize::MAX / 2,
                wa < ac <= n,
                ones(v, 0, wa as int) < num,
                ones(v, 0, ac as int) >= num,
            decreases ac - wa,
        {
            let wj = (ac + wa) / 2;
            if self.rank1(wj) >= num {
                ac = wj;
            } else {
                wa = wj;
            }
        }
        proof {
            assert forall|i: int| 0 <= i < ac implies #[trigger] ones(v, 0, i) < num by {
                lemma_ones_monotone(v, 0, i, wa as int);
            }
        }
        Some(ac)
    }

    /// The end of the prefix holding the `num`-th zero: the least `j` with
    /// `num` zeros in `[0, j)` (`Some(0)` for `0`, `None` past the last zero).
    pub fn select0(&mut self, num: usize) -> (r: Option<usize>)
        requires
            old(self).wf(),
            old(self).counts_fit(),
            num == 0 || old(self).len_spec() < old(self)@.len(),
            old(self).len_spec() <= usize::MAX / 2,
        ensures
            final(self).wf(),
            final(self).counts_fit(),
            final(self)@ == old(self)@,
            final(self).len_spec() == old(self).len_spec(),
            num == 0 ==> r == Some(0usize),
            num > 0 ==> (r is None <==> old(self).len_spec() - ones(old(self)@, 0, old(self).len_spec() as int) < num),
            num > 0 && r is Some ==> {
                &&& 1 <= r.unwrap() <= old(self).len_spec()
                &&& r.unwrap() - ones(old(self)@, 0, r.unwrap() as int) == num
                &&& forall|i: int| 0 <= i < r.unwrap() ==> i - #[trigger] ones(old(self)@, 0, i) < num
            },
    {
        if num == 0 {
            return Some(0);
        }
        let ghost v = self@;
        let n = self.len();
        if self.rank0(n) < num {
            return None;
        }
        let mut wa: usize = 0;
        let mut ac: usize = n;
        while wa + 1 < ac
            invariant
                self.wf(),
                self.counts_fit(),
                self@ == v,
                self.len_spec() == n,
                n < v.len(),
                n <= usize::MAX / 2,
                wa < ac <= n,
                wa - ones(v, 0, wa as int) < num,
                ac - ones(v, 0, ac as int) >= num,
            decreases ac - wa,
        {
            let sum = ac + wa;
            let wj = sum >> 1;
            proof {
                assert(sum >> 1 == sum / 2) by (bit_vector);
            }
            if self.rank0(wj) >= num {
                ac = wj;
            } else {
                wa = wj;
            }
        }
        proof {
            assert forall|i: int| 0 <= i < ac implies i - #[trigger] ones(v, 0, i) < num by {
                lemma_ones_split(v, 0, i, wa as int);
                lemma_ones_bound(v, i, wa as int);
            }
        }
        Some(ac)
    }

    /// A dictionary holding the given bits.
    pub fn from_bools(array: Vec<bool>) -> (d: Self)
        requires
            array@.len() + 256 <= usize::MAX,
        ensures
            d.wf(),
            d.len_spec() == array@.len(),
            d@.len() >= array@.len(),
            forall|i: int| 0 <= i < d@.len() ==> #[trigger] d@[i] == (i < array@.len() && array@[i]),
    {
        let n = array.len();
        let mut dic = Self::new(n);
        proof {
            assert(n <= 256 * ((n + 255) / 256)) by (nonlinear_arith);
        }
        let mut i: usize = 0;
        while i < n
            invariant
                n == array@.len(),
                dic.wf(),
                dic.len_spec() == n,
                n <= dic@.len(),
                i <= n,
                forall|k: int| 0 <= k < dic@.len() ==> #[trigger] dic@[k] == (k < i && array@[k]),
            decreases n - i,
        {
            dic.set(i, array[i]);
            i += 1;
        }
        dic
    }

}

} // verus!
