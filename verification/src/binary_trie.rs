//! A binary trie over the low `depth` bits of `u64` values: a multiset that
//! hands out its least value.
use vstd::prelude::*;
use vstd::arithmetic::power2::{pow2, lemma_pow2_unfold, lemma_pow2_pos};
use vstd::bits::{lemma_u64_shl_is_mul, lemma_u64_shr_is_div, lemma_u64_pow2_no_overflow};
use vstd::arithmetic::div_mod::{lemma_mod_breakdown, lemma_mod_bound};

verus! {

/// Whether `x` and `y` share a set bit.
fn mask(x: u64, y: u64) -> (b: bool)
    ensures
        b == (x & y != 0),
{
    x & y != 0
}

/// A node at height `h` holds the values below `2^h`: those below
/// `2^(h - 1)` under `zero`, the others (less `2^(h - 1)`) under `one`.
#[derive(Debug)]
struct Node {
    zero: Option<Box<Node>>,
    one: Option<Box<Node>>,
    size: usize,
}

impl Node {
    fn empty() -> (n: Self)
        ensures
            n.zero is None,
            n.one is None,
            n.size == 0,
    {
        Node { zero: None, one: None, size: 0 }
    }
}

/// The size of a child, `0` where there is none.
spec fn opt_size(n: Option<Box<Node>>) -> nat {
    match n {
        Some(b) => b.size as nat,
        None => 0,
    }
}

/// How many copies of `v` the node of height `h` holds.
spec fn count(n: Node, h: nat, v: nat) -> nat
    decreases h,
{
    if h == 0 {
        if v == 0 { n.size as nat } else { 0 }
    } else if v < pow2((h - 1) as nat) {
        match n.zero {
            Some(c) => count(*c, (h - 1) as nat, v),
            None => 0,
        }
    } else if v < pow2(h) {
        match n.one {
            Some(c) => count(*c, (h - 1) as nat, (v - pow2((h - 1) as nat)) as nat),
            None => 0,
        }
    } else {
        0
    }
}

/// `count` of a child, `0` where there is none.
spec fn opt_count(n: Option<Box<Node>>, h: nat, v: nat) -> nat {
    match n {
        Some(b) => count(*b, h, v),
        None => 0,
    }
}

/// Every inner node's size is the sum of its children's, and every child
/// present is non-empty.
spec fn wf(n: Node, h: nat) -> bool
    decreases h,
{
    h == 0 || {
        &&& n.size == opt_size(n.zero) + opt_size(n.one)
        &&& match n.zero {
            Some(c) => c.size >= 1 && wf(*c, (h - 1) as nat),
            None => true,
        }
        &&& match n.one {
            Some(c) => c.size >= 1 && wf(*c, (h - 1) as nat),
            None => true,
        }
    }
}

proof fn lemma_empty(n: Node, h: nat)
    requires
        n.zero is None,
        n.one is None,
        n.size == 0,
    ensures
        wf(n, h),
        forall|v: nat| count(n, h, v) == 0,
{
}

/// The bit of `x` at `2^(h - 1)` splits `x mod 2^h` into its top bit and
/// `x mod 2^(h - 1)`.
proof fn lemma_mask(x: u64, b: u64, h: nat)
    requires
        1 <= h <= 64,
        b == pow2((h - 1) as nat),
    ensures
        (x & b != 0) == ((x as nat) % pow2(h) >= pow2((h - 1) as nat)),
        (x as nat) % pow2((h - 1) as nat) == (x as nat) % pow2(h) - (if x & b != 0 { pow2((h - 1) as nat) } else { 0 }),
{
    let k = (h - 1) as nat;
    let ku = k as u64;
    lemma_u64_pow2_no_overflow(k);
    lemma_u64_shl_is_mul(1, ku);
    assert(b == 1u64 << ku);
    assert(((x & (1u64 << ku)) != 0) == (((x >> ku) & 1u64) == 1u64)) by (bit_vector)
        requires
            ku < 64,
    ;
    assert((x >> ku) & 1u64 == (x >> ku) % 2) by (bit_vector);
    lemma_u64_shr_is_div(x, ku);
    lemma_pow2_pos(k);
    lemma_pow2_unfold(h);
    let p = pow2(k) as int;
    let xi = x as int;
    assert((x >> ku) as int == xi / p);
    let q = (xi / p) % 2;
    assert(((x >> ku) % 2) as int == q);
    assert((x & b != 0) == (q == 1));
    lemma_mod_breakdown(xi, p, 2);
    lemma_mod_bound(xi, p);
    assert(p * 2 == pow2(h));
    assert(xi % pow2(h) as int == p * q + xi % p);
    assert(q == 0 || q == 1);
    if q == 1 {
        assert(xi % pow2(h) as int == p + xi % p);
    } else {
        assert(xi % pow2(h) as int == xi % p);
    }
}

/// Adds `x mod 2^h` to the node of height `h`; `b` is `2^(h - 1)`, or `0`
/// at the bottom.
fn insert_node(node: Node, x: u64, b: u64, Ghost(h): Ghost<nat>) -> (r: Node)
    requires
        h <= 64,
        b == if h == 0 { 0 } else { pow2((h - 1) as nat) },
        wf(node, h),
        node.size < usize::MAX,
    ensures
        wf(r, h),
        r.size == node.size + 1,
        forall|v: nat| #[trigger] count(r, h, v) == count(node, h, v) + (if v == (x as nat) % pow2(h) { 1int } else { 0 }),
    decreases h,
{
    let Node { zero, one, size } = node;
    let ghost old_node = Node { zero, one, size };
    assert(old_node == node);
    if b == 0 {
        proof {
            assert(pow2(0) == 1) by {
                vstd::arithmetic::power2::lemma2_to64();
            }
            if h > 0 {
                lemma_pow2_pos((h - 1) as nat);
            }
        }
        let r = Node { zero, one, size: size + 1 };
        proof {
            assert(h == 0);
            assert forall|v: nat| #[trigger] count(r, h, v) == count(node, h, v) + (if v == (x as nat) % pow2(h) { 1int } else { 0 }) by {}
        }
        return r;
    }
    proof {
        lemma_pow2_pos((h - 1) as nat);
        lemma_mask(x, b, h);
        lemma_pow2_unfold(h);
        if h >= 2 {
            lemma_pow2_unfold((h - 1) as nat);
            assert(b >> 1u64 == b / 2) by (bit_vector);
        } else {
            assert(b == 1) by {
                vstd::arithmetic::power2::lemma2_to64();
            }
            assert(1u64 >> 1u64 == 0u64) by (bit_vector);
        }
    }
    let nb = b >> 1;
    let hh: Ghost<nat> = Ghost((h - 1) as nat);
    if mask(x, b) {
        let c = match one {
            Some(c) => *c,
            None => Node::empty(),
        };
        proof {
            if c.size == 0 {
                lemma_empty(c, (h - 1) as nat);
            }
        }
        let c2 = insert_node(c, x, nb, hh);
        let r = Node { zero, one: Some(Box::new(c2)), size: size + 1 };
        proof {
            assert forall|v: nat| #[trigger] count(r, h, v) == count(node, h, v) + (if v == (x as nat) % pow2(h) { 1int } else { 0 }) by {
                if v >= pow2((h - 1) as nat) && v < pow2(h) {
                    assert(count(r, h, v) == count(c2, (h - 1) as nat, (v - pow2((h - 1) as nat)) as nat));
                    assert(opt_count(one, (h - 1) as nat, (v - pow2((h - 1) as nat)) as nat) == count(c, (h - 1) as nat, (v - pow2((h - 1) as nat)) as nat));
                }
            }
        }
        r
    } else {
        let c = match zero {
            Some(c) => *c,
            None => Node::empty(),
        };
        proof {
            if c.size == 0 {
                lemma_empty(c, (h - 1) as nat);
            }
        }
        let c2 = insert_node(c, x, nb, hh);
        let r = Node { zero: Some(Box::new(c2)), one, size: size + 1 };
        proof {
            assert forall|v: nat| #[trigger] count(r, h, v) == count(node, h, v) + (if v == (x as nat) % pow2(h) { 1int } else { 0 }) by {
                if v < pow2((h - 1) as nat) {
                    assert(count(r, h, v) == count(c2, (h - 1) as nat, v));
                    assert(opt_count(zero, (h - 1) as nat, v) == count(c, (h - 1) as nat, v));
                }
            }
        }
        r
    }
}

proof fn lemma_zero_size(n: Node, h: nat)
    requires
        wf(n, h),
        n.size == 0,
    ensures
        forall|v: nat| count(n, h, v) == 0,
{
}

/// Takes one copy of the least value out of the non-empty node of height
/// `h`, preferring the `zero` side; `b` is `2^(h - 1)`, or `0` at the bottom.
fn pop_min_node(node: Node, b: u64, Ghost(h): Ghost<nat>) -> (r: (Node, u64))
    requires
        h <= 64,
        b == if h == 0 { 0 } else { pow2((h - 1) as nat) },
        wf(node, h),
        node.size >= 1,
    ensures
        wf(r.0, h),
        r.0.size == node.size - 1,
        r.1 < pow2(h),
        count(node, h, r.1 as nat) >= 1,
        forall|v: nat| v < r.1 ==> #[trigger] count(node, h, v) == 0,
        forall|v: nat| #[trigger] count(r.0, h, v) == count(node, h, v) - (if v == r.1 { 1int } else { 0 }),
    decreases h,
{
    let Node { zero, one, size } = node;
    if b == 0 {
        proof {
            if h > 0 {
                lemma_pow2_pos((h - 1) as nat);
            }
            assert(pow2(0) == 1) by {
                vstd::arithmetic::power2::lemma2_to64();
            }
        }
        let r = Node { zero, one, size: size - 1 };
        proof {
            assert forall|v: nat| #[trigger] count(r, h, v) == count(node, h, v) - (if v == 0 { 1int } else { 0 }) by {}
        }
        return (r, 0);
    }
    proof {
        lemma_pow2_pos((h - 1) as nat);
        lemma_pow2_unfold(h);
        if h >= 2 {
            lemma_pow2_unfold((h - 1) as nat);
            assert(b >> 1u64 == b / 2) by (bit_vector);
        } else {
            assert(b == 1) by {
                vstd::arithmetic::power2::lemma2_to64();
            }
            assert(1u64 >> 1u64 == 0u64) by (bit_vector);
        }
    }
    let nb = b >> 1;
    let hh: Ghost<nat> = Ghost((h - 1) as nat);
    let ghost hp = pow2((h - 1) as nat);
    match zero {
        Some(c) => {
            let (c2, v) = pop_min_node(*c, nb, hh);
            proof {
                if c2.size == 0 {
                    lemma_zero_size(c2, (h - 1) as nat);
                }
            }
            let z = if c2.size == 0 { None } else { Some(Box::new(c2)) };
            let r = Node { zero: z, one, size: size - 1 };
            proof {
                assert(count(node, h, v as nat) == count(*c, (h - 1) as nat, v as nat));
                assert forall|w: nat| w < v implies #[trigger] count(node, h, w) == 0 by {
                    assert(count(node, h, w) == count(*c, (h - 1) as nat, w));
                }
                assert forall|w: nat| #[trigger] count(r, h, w) == count(node, h, w) - (if w == v { 1int } else { 0 }) by {
                    if w < hp {
                        assert(count(r, h, w) == opt_count(z, (h - 1) as nat, w));
                        assert(count(node, h, w) == count(*c, (h - 1) as nat, w));
                        assert(count(c2, (h - 1) as nat, w) == count(*c, (h - 1) as nat, w) - (if w == v { 1int } else { 0 }));
                        if c2.size != 0 {
                            assert(opt_count(z, (h - 1) as nat, w) == count(c2, (h - 1) as nat, w));
                        }
                    } else {
                        assert(w != v);
                    }
                }
            }
            (r, v)
        },
        None => {
            match one {
                Some(c) => {
                    let (c2, v) = pop_min_node(*c, nb, hh);
                    proof {
                        if c2.size == 0 {
                            lemma_zero_size(c2, (h - 1) as nat);
                        }
                        vstd::arithmetic::power2::lemma2_to64();
                        if h < 64 {
                            vstd::arithmetic::power2::lemma_pow2_strictly_increases(h, 64);
                        }
                        assert(v + b < 0x1_0000_0000_0000_0000);
                    }
                    let o = if c2.size == 0 { None } else { Some(Box::new(c2)) };
                    let r = Node { zero: None, one: o, size: size - 1 };
                    let w0 = v + b;
                    proof {
                        assert((w0 - hp) as nat == v as nat);
                        assert(count(node, h, w0 as nat) == count(*c, (h - 1) as nat, v as nat));
                        assert forall|w: nat| w < w0 implies #[trigger] count(node, h, w) == 0 by {
                            if w >= hp {
                                assert(count(node, h, w) == count(*c, (h - 1) as nat, (w - hp) as nat));
                            }
                        }
                        assert forall|w: nat| #[trigger] count(r, h, w) == count(node, h, w) - (if w == w0 { 1int } else { 0 }) by {
                            if w >= hp && w < pow2(h) {
                                let wl = (w - hp) as nat;
                                assert(count(r, h, w) == opt_count(o, (h - 1) as nat, wl));
                                assert(count(node, h, w) == count(*c, (h - 1) as nat, wl));
                                assert(count(c2, (h - 1) as nat, wl) == count(*c, (h - 1) as nat, wl) - (if wl == v { 1int } else { 0 }));
                                if c2.size != 0 {
                                    assert(opt_count(o, (h - 1) as nat, wl) == count(c2, (h - 1) as nat, wl));
                                }
                                assert((wl == v) == (w == w0));
                            } else if w < hp {
                                assert(count(r, h, w) == 0);
                                assert(w != w0);
                            } else {
                                assert(w != w0);
                            }
                        }
                    }
                    (r, w0)
                },
                None => {
                    proof {
                        assert(false);
                    }
                    (Node { zero: None, one: None, size: 0 }, 0)
                },
            }
        },
    }
}

/// A multiset of the values below `2^depth`: each value added counts by
/// its low `depth` bits.
pub struct BinaryTrie {
    root: Box<Node>,
    bit_start: u64,
    depth: Ghost<nat>,
}

impl BinaryTrie {
    /// How many bits of each value count.
    pub closed spec fn width(&self) -> nat {
        self.depth@
    }

    /// How many copies of `v` are present.
    pub closed spec fn count_of(&self, v: nat) -> nat {
        count(*self.root, self.depth@, v)
    }

    /// How many values are present.
    pub closed spec fn len(&self) -> nat {
        self.root.size as nat
    }

    pub closed spec fn wf(&self) -> bool {
        &&& 1 <= self.depth@ <= 64
        &&& self.bit_start == pow2((self.depth@ - 1) as nat)
        &&& wf(*self.root, self.depth@)
    }

    /// An empty trie over the low `depth` bits.
    pub fn new(depth: usize) -> (t: Self)
        requires
            1 <= depth <= 64,
        ensures
            t.wf(),
            t.width() == depth,
            t.len() == 0,
            forall|v: nat| #[trigger] t.count_of(v) == 0,
    {
        let k = (depth - 1) as u64;
        proof {
            lemma_u64_pow2_no_overflow(k as nat);
            lemma_u64_shl_is_mul(1, k);
        }
        let t = BinaryTrie { root: Box::new(Node::empty()), bit_start: 1u64 << k, depth: Ghost(depth as nat) };
        proof {
            lemma_empty(*t.root, depth as nat);
        }
        t
    }

    /// Adds a copy of `x mod 2^width`.
    pub fn insert(&mut self, x: u64)
        requires
            old(self).wf(),
            old(self).len() < usize::MAX,
        ensures
            final(self).wf(),
            final(self).width() == old(self).width(),
            final(self).len() == old(self).len() + 1,
            forall|v: nat| #[trigger] final(self).count_of(v) == old(self).count_of(v)
                + (if v == (x as nat) % pow2(old(self).width()) { 1int } else { 0 }),
    {
        let mut r = Box::new(Node::empty());
        std::mem::swap(&mut self.root, &mut r);
        self.root = Box::new(insert_node(*r, x, self.bit_start, Ghost(self.depth@)));
    }

    /// Takes out one copy of the least value present and returns it.
    pub fn pop_min(&mut self) -> (v: u64)
        requires
            old(self).wf(),
            old(self).len() >= 1,
        ensures
            final(self).wf(),
            final(self).width() == old(self).width(),
            final(self).len() == old(self).len() - 1,
            v < pow2(old(self).width()),
            old(self).count_of(v as nat) >= 1,
            forall|w: nat| w < v ==> #[trigger] old(self).count_of(w) == 0,
            forall|w: nat| #[trigger] final(self).count_of(w) == old(self).count_of(w) - (if w == v { 1int } else { 0 }),
    {
        let mut r = Box::new(Node::empty());
        std::mem::swap(&mut self.root, &mut r);
        let (n, v) = pop_min_node(*r, self.bit_start, Ghost(self.depth@));
        self.root = Box::new(n);
        v
    }
}

} // verus!
