//! Frequency analysis and arena-backed Huffman tree construction.

use vstd::prelude::*;

use vstd::arithmetic::power2::{pow2, lemma_pow2_unfold};

verus! {

/// How many times the byte `b` occurs in `s`.
pub open spec fn count_byte(s: Seq<u8>, b: u8) -> nat
    decreases s.len(),
{
    if s.len() == 0 {
        0
    } else {
        count_byte(s.drop_last(), b) + (if s.last() == b {
            1nat
        } else {
            0nat
        })
    }
}

/// A byte occurs in `s` iff its count is positive.
pub open spec fn occurs(s: Seq<u8>, b: u8) -> bool {
    count_byte(s, b) > 0
}

pub proof fn lemma_count_byte_le_len(s: Seq<u8>, b: u8)
    ensures
        count_byte(s, b) <= s.len(),
    decreases s.len(),
{
    if s.len() > 0 {
        lemma_count_byte_le_len(s.drop_last(), b);
    }
}

/// Per-byte occurrence counts: entry `b` is the number of times byte `b`
/// occurs in `bytes`.
pub fn build_freq_table(bytes: &Vec<u8>) -> (freqs: Vec<u64>)
    ensures
        freqs@.len() == 256,
        forall|b: int| 0 <= b < 256 ==> freqs@[b] == count_byte(bytes@, b as u8),
{
    let mut freqs: Vec<u64> = Vec::new();
    let mut k: usize = 0;
    while k < 256
        invariant
            k <= 256,
            freqs@.len() == k,
            forall|b: int| 0 <= b < k ==> freqs@[b] == 0,
        decreases 256 - k,
    {
        freqs.push(0);
        k += 1;
    }
    assert(forall|b: int| 0 <= b < 256 ==> freqs@[b] == count_byte(bytes@.take(0), b as u8));
    let mut i: usize = 0;
    while i < bytes.len()
        invariant
            i <= bytes@.len(),
            freqs@.len() == 256,
            forall|b: int| 0 <= b < 256 ==> freqs@[b] == count_byte(bytes@.take(i as int), b as u8),
        decreases bytes@.len() - i,
    {
        let sym = bytes[i] as usize;
        proof {
            let t1 = bytes@.take(i + 1);
            assert(t1.drop_last() =~= bytes@.take(i as int));
            assert(t1.last() == bytes@[i as int]);
            lemma_count_byte_le_len(bytes@.take(i as int), bytes@[i as int]);
        }
        freqs[sym] = freqs[sym] + 1;
        i += 1;
        proof {
            assert forall|b: int| 0 <= b < 256 implies freqs@[b] == count_byte(
                bytes@.take(i as int),
                b as u8,
            ) by {
                let t1 = bytes@.take(i as int);
                assert(t1.drop_last() =~= bytes@.take(i - 1));
            }
        }
    }
    proof {
        assert(bytes@.take(bytes@.len() as int) =~= bytes@);
    }
    freqs
}

/// An arena entry. A leaf carries a symbol and no children; an internal node
/// carries both children (as indices of strictly earlier arena entries) and no
/// symbol. `depth` is filled in by `set_depths` after construction.
#[derive(Clone, Copy, Debug)]
pub struct Node {
    pub freq: u64,
    pub symbol: Option<u8>,
    pub left: Option<usize>,
    pub right: Option<usize>,
    pub depth: Option<u8>,
}

pub open spec fn node_is_leaf(n: Node) -> bool {
    n.left is None && n.right is None
}

/// Either child index of the node at `k` is `j`.
pub open spec fn is_child_of(nodes: Seq<Node>, k: int, j: int) -> bool {
    (nodes[k].left is Some && nodes[k].left.unwrap() == j) || (nodes[k].right is Some
        && nodes[k].right.unwrap() == j)
}

/// A node is a leaf with a symbol, or internal with two earlier children.
pub open spec fn node_shape_wf(nodes: Seq<Node>, i: int) -> bool {
    let n = nodes[i];
    &&& n.left is Some <==> n.right is Some
    &&& n.symbol is Some <==> n.left is None
    &&& n.left is Some ==> n.left.unwrap() < n.right.unwrap() && n.right.unwrap() < i
}

pub open spec fn arena_wf(nodes: Seq<Node>) -> bool {
    forall|i: int| 0 <= i < nodes.len() ==> node_shape_wf(nodes, i)
}

/// Some later entry has `j` as a child.
pub open spec fn has_parent(nodes: Seq<Node>, j: int) -> bool {
    exists|k: int| j < k < nodes.len() && #[trigger] is_child_of(nodes, k, j)
}

/// Every entry but the last is a child of some later entry.
pub open spec fn covered(nodes: Seq<Node>) -> bool {
    forall|j: int| 0 <= j < nodes.len() - 1 ==> #[trigger] has_parent(nodes, j)
}

/// Number of internal nodes among positions `[lo, hi)`.
pub open spec fn internal_count(nodes: Seq<Node>, lo: int, hi: int) -> nat
    decreases hi - lo,
{
    if lo >= hi {
        0
    } else {
        internal_count(nodes, lo, (hi - 1) as int) + (if nodes[hi - 1].left is Some {
            1nat
        } else {
            0nat
        })
    }
}

/// Sum of the `freq` fields of a node sequence.
pub open spec fn sum_freq(s: Seq<Node>) -> int
    decreases s.len(),
{
    if s.len() == 0 {
        0
    } else {
        sum_freq(s.drop_last()) + s.last().freq
    }
}

/// Some leaf of the arena carries the symbol `b`.
pub open spec fn has_leaf(nodes: Seq<Node>, b: u8) -> bool {
    exists|i: int| 0 <= i < nodes.len() && node_is_leaf(#[trigger] nodes[i]) && nodes[i].symbol == Some(b)
}

/// Number of distinct byte values below `n` that occur in `s`.
pub open spec fn distinct_upto(s: Seq<u8>, n: int) -> nat
    decreases n,
{
    if n <= 0 {
        0
    } else {
        distinct_upto(s, n - 1) + (if occurs(s, (n - 1) as u8) {
            1nat
        } else {
            0nat
        })
    }
}

/// Number of distinct byte values occurring in `s`.
pub open spec fn distinct_count(s: Seq<u8>) -> nat {
    distinct_upto(s, 256)
}

/// The total ordering of the construction queue: ascending frequency; among
/// equal frequencies a node with a symbol precedes one without, and smaller
/// symbols precede larger ones.
pub open spec fn spec_precedes(a: Node, b: Node) -> bool {
    a.freq < b.freq || (a.freq == b.freq && symbol_order(a) < symbol_order(b))
}

pub open spec fn symbol_order(n: Node) -> int {
    match n.symbol {
        Some(s) => s as int,
        None => 256,
    }
}

impl Node {
    pub fn new(freq: u64, symbol: Option<u8>, left: Option<usize>, right: Option<usize>) -> (n:
        Node)
        ensures
            n == (Node { freq, symbol, left, right, depth: None }),
    {
        Node { freq, symbol, left, right, depth: None }
    }

    /// The parent of two children standing at `l_idx` and `l_idx + 1`.
    pub fn from(l_child: &Node, l_idx: usize, r_child: &Node, r_idx: usize) -> (n: Node)
        requires
            l_child.freq + r_child.freq <= u64::MAX,
        ensures
            n == (Node {
                freq: (l_child.freq + r_child.freq) as u64,
                symbol: None,
                left: Some(l_idx),
                right: Some(r_idx),
                depth: None,
            }),
    {
        Node {
            freq: l_child.freq + r_child.freq,
            symbol: None,
            left: Some(l_idx),
            right: Some(r_idx),
            depth: None,
        }
    }

    pub fn is_leaf(&self) -> (r: bool)
        ensures
            r == node_is_leaf(*self),
    {
        self.left.is_none() && self.right.is_none()
    }

    /// The strict queue order: `self` pops before `other`.
    pub fn precedes(&self, other: &Node) -> (r: bool)
        ensures
            r == spec_precedes(*self, *other),
    {
        if self.freq != other.freq {
            self.freq < other.freq
        } else {
            let a = match self.symbol {
                Some(s) => s as u16,
                None => 256,
            };
            let b = match other.symbol {
                Some(s) => s as u16,
                None => 256,
            };
            a < b
        }
    }
}

/// Index of the first queue entry that no other entry strictly precedes:
/// the minimum under the order of 4.2, ties resolved to the earliest entry.
#[verifier::rlimit(100)]
fn min_index(q: &Vec<Node>) -> (m: usize)
    requires
        q@.len() >= 1,
    ensures
        m < q@.len(),
        forall|j: int| 0 <= j < q@.len() ==> !spec_precedes(#[trigger] q@[j], q@[m as int]),
        forall|i: int| 0 <= i < m ==> spec_precedes(q@[m as int], #[trigger] q@[i]),
        m as int == spec_min_index(q@),
{
    let mut m: usize = 0;
    let mut j: usize = 1;
    while j < q.len()
        invariant
            m < j <= q@.len(),
            forall|i: int| 0 <= i < j ==> !spec_precedes(#[trigger] q@[i], q@[m as int]),
            forall|i: int| 0 <= i < m ==> spec_precedes(q@[m as int], #[trigger] q@[i]),
            spec_min_from(q@, m as int, j as int) == spec_min_index(q@),
        decreases q@.len() - j,
    {
        let ghost m0 = m as int;
        let ghost j0 = j as int;
        if q[j].precedes(&q[m]) {
            m = j;
        }
        j += 1;
        proof {
            reveal(spec_min_from);
            assert(spec_min_from(q@, m0, j0) == (if spec_precedes(q@[j0], q@[m0]) {
                spec_min_from(q@, j0, j0 + 1)
            } else {
                spec_min_from(q@, m0, j0 + 1)
            }));
            assert(spec_min_from(q@, m as int, j as int) == spec_min_from(q@, m0, j0));
        }
    }
    proof {
        reveal(spec_min_from);
        assert(spec_min_from(q@, m as int, q@.len() as int) == m as int);
    }
    m
}

/// Number of internal nodes in the whole sequence.
pub open spec fn internal_total(s: Seq<Node>) -> nat
    decreases s.len(),
{
    if s.len() == 0 {
        0
    } else {
        internal_total(s.drop_last()) + (if s.last().left is Some {
            1nat
        } else {
            0nat
        })
    }
}

/// Sum of the occurrence counts of all byte values below `n`.
pub open spec fn sum_counts(s: Seq<u8>, n: int) -> nat
    decreases n,
{
    if n <= 0 {
        0
    } else {
        sum_counts(s, n - 1) + count_byte(s, (n - 1) as u8)
    }
}

pub proof fn lemma_remove_index(q: Seq<Node>, i: int, j: int)
    requires
        0 <= i < q.len(),
        0 <= j < q.len() - 1,
    ensures
        q.remove(i)[j] == (if j < i {
            q[j]
        } else {
            q[j + 1]
        }),
{
}

pub proof fn lemma_sum_freq_remove(s: Seq<Node>, i: int)
    requires
        0 <= i < s.len(),
    ensures
        sum_freq(s.remove(i)) == sum_freq(s) - s[i].freq,
    decreases s.len(),
{
    if i == s.len() - 1 {
        assert(s.remove(i) =~= s.drop_last());
    } else {
        assert(s.remove(i).drop_last() =~= s.drop_last().remove(i));
        assert(s.remove(i).last() == s.last());
        lemma_sum_freq_remove(s.drop_last(), i);
    }
}

pub proof fn lemma_sum_freq_nonneg(s: Seq<Node>)
    ensures
        sum_freq(s) >= 0,
    decreases s.len(),
{
    if s.len() > 0 {
        lemma_sum_freq_nonneg(s.drop_last());
    }
}

pub proof fn lemma_internal_total_remove(s: Seq<Node>, i: int)
    requires
        0 <= i < s.len(),
    ensures
        internal_total(s.remove(i)) == internal_total(s) - (if s[i].left is Some {
            1int
        } else {
            0int
        }),
    decreases s.len(),
{
    if i == s.len() - 1 {
        assert(s.remove(i) =~= s.drop_last());
    } else {
        assert(s.remove(i).drop_last() =~= s.drop_last().remove(i));
        assert(s.remove(i).last() == s.last());
        lemma_internal_total_remove(s.drop_last(), i);
    }
}

/// Dropping the last element does not change counts over earlier ranges.
pub proof fn lemma_internal_count_drop_last(s: Seq<Node>, lo: int, hi: int)
    requires
        s.len() > 0,
        0 <= lo,
        hi <= s.len() - 1,
    ensures
        internal_count(s.drop_last(), lo, hi) == internal_count(s, lo, hi),
    decreases hi - lo,
{
    if lo < hi {
        assert(s.drop_last()[hi - 1] == s[hi - 1]);
        lemma_internal_count_drop_last(s, lo, hi - 1);
    }
}

/// Replacing one element by another with the same children leaves counts alone.
pub proof fn lemma_internal_count_update(s: Seq<Node>, i: int, n2: Node, lo: int, hi: int)
    requires
        0 <= i < s.len(),
        n2.left == s[i].left,
        0 <= lo,
        hi <= s.len(),
    ensures
        internal_count(s.update(i, n2), lo, hi) == internal_count(s, lo, hi),
    decreases hi - lo,
{
    if lo < hi {
        assert(s.update(i, n2)[hi - 1].left == s[hi - 1].left);
        lemma_internal_count_update(s, i, n2, lo, hi - 1);
    }
}

pub proof fn lemma_internal_count_split(s: Seq<Node>, lo: int, mid: int, hi: int)
    requires
        lo <= mid <= hi,
    ensures
        internal_count(s, lo, hi) == internal_count(s, lo, mid) + internal_count(s, mid, hi),
    decreases hi - mid,
{
    if mid < hi {
        lemma_internal_count_split(s, lo, mid, hi - 1);
    }
}

/// The whole-range count agrees with the recursive total.
pub proof fn lemma_internal_count_is_total(s: Seq<Node>)
    ensures
        internal_count(s, 0, s.len() as int) == internal_total(s),
    decreases s.len(),
{
    if s.len() > 0 {
        lemma_internal_count_is_total(s.drop_last());
        lemma_internal_count_drop_last(s, 0, s.len() - 1);
    }
}

proof fn lemma_sum_counts_empty(n: int)
    ensures
        sum_counts(Seq::<u8>::empty(), n) == 0,
    decreases n,
{
    if n > 0 {
        lemma_sum_counts_empty(n - 1);
    }
}

proof fn lemma_sum_counts_step(s: Seq<u8>, n: int)
    requires
        s.len() > 0,
        n <= 256,
    ensures
        sum_counts(s, n) == sum_counts(s.drop_last(), n) + (if (s.last() as int) < n {
            1int
        } else {
            0int
        }),
    decreases n,
{
    if n > 0 {
        lemma_sum_counts_step(s, n - 1);
    }
}

/// The counts of all 256 byte values sum to the length of the stream.
pub proof fn lemma_sum_counts_total(s: Seq<u8>)
    ensures
        sum_counts(s, 256) == s.len(),
    decreases s.len(),
{
    if s.len() == 0 {
        assert(s =~= Seq::<u8>::empty());
        lemma_sum_counts_empty(256);
    } else {
        lemma_sum_counts_step(s, 256);
        lemma_sum_counts_total(s.drop_last());
    }
}

proof fn lemma_distinct_empty(s: Seq<u8>, n: int)
    requires
        s.len() == 0,
    ensures
        distinct_upto(s, n) == 0,
    decreases n,
{
    if n > 0 {
        lemma_distinct_empty(s, n - 1);
    }
}

pub proof fn lemma_distinct_upto_bound(s: Seq<u8>, n: int)
    requires
        n >= 0,
    ensures
        distinct_upto(s, n) <= n,
    decreases n,
{
    if n > 0 {
        lemma_distinct_upto_bound(s, n - 1);
    }
}

/// An element of the queue has the arena position `j` as a child.
pub open spec fn queue_parent(q: Seq<Node>, j: int) -> bool {
    exists|qi: int| 0 <= qi < q.len() && #[trigger] is_child_of(q, qi, j)
}

/// A queue node is a leaf with a symbol, or internal with children in the
/// arena prefix of length `arena_len`.
pub open spec fn queue_node_wf(n: Node, arena_len: int) -> bool {
    &&& n.left is Some <==> n.right is Some
    &&& n.symbol is Some <==> n.left is None
    &&& n.left is Some ==> n.left.unwrap() < n.right.unwrap() && n.right.unwrap() < arena_len
    &&& n.depth is None
}

pub open spec fn queue_wf(q: Seq<Node>, arena_len: int) -> bool {
    forall|qi: int| 0 <= qi < q.len() ==> queue_node_wf(#[trigger] q[qi], arena_len)
}

/// A leaf carries an occurring symbol together with its occurrence count.
pub open spec fn leaf_node_matches(n: Node, input: Seq<u8>) -> bool {
    node_is_leaf(n) ==> n.symbol is Some && n.freq == count_byte(input, n.symbol.unwrap())
        && n.freq > 0
}

pub open spec fn leaves_match(s: Seq<Node>, input: Seq<u8>) -> bool {
    forall|i: int| 0 <= i < s.len() ==> leaf_node_matches(#[trigger] s[i], input)
}

/// Some later node is `j`'s parent and `j` lies one level deeper than it.
pub open spec fn depth_linked(nodes: Seq<Node>, j: int) -> bool {
    exists|p: int|
        j < p < nodes.len() && #[trigger] is_child_of(nodes, p, j) && nodes[p].depth is Some
            && nodes[j].depth is Some && nodes[j].depth.unwrap() == nodes[p].depth.unwrap() + 1
}

pub proof fn lemma_has_leaf_remove(q: Seq<Node>, i: int, b: u8)
    requires
        0 <= i < q.len(),
        has_leaf(q, b),
    ensures
        has_leaf(q.remove(i), b) || (node_is_leaf(q[i]) && q[i].symbol == Some(b)),
{
    let w = choose|w: int| 0 <= w < q.len() && node_is_leaf(#[trigger] q[w]) && q[w].symbol == Some(b);
    if w != i {
        let w2 = if w < i {
            w
        } else {
            w - 1
        };
        lemma_remove_index(q, i, w2);
        assert(q.remove(i)[w2] == q[w]);
    }
}

pub proof fn lemma_has_leaf_push(s: Seq<Node>, x: Node, b: u8)
    requires
        has_leaf(s, b) || (node_is_leaf(x) && x.symbol == Some(b)),
    ensures
        has_leaf(s.push(x), b),
{
    if has_leaf(s, b) {
        let w = choose|w: int| 0 <= w < s.len() && node_is_leaf(#[trigger] s[w]) && s[w].symbol == Some(b);
        assert(s.push(x)[w] == s[w]);
    } else {
        assert(s.push(x)[s.len() as int] == x);
    }
}

pub proof fn lemma_queue_parent_remove(q: Seq<Node>, i: int, j: int)
    requires
        0 <= i < q.len(),
        queue_parent(q, j),
    ensures
        queue_parent(q.remove(i), j) || is_child_of(q, i, j),
{
    let w = choose|w: int| 0 <= w < q.len() && #[trigger] is_child_of(q, w, j);
    if w != i {
        let w2 = if w < i {
            w
        } else {
            w - 1
        };
        lemma_remove_index(q, i, w2);
        assert(q.remove(i)[w2] == q[w]);
        assert(is_child_of(q.remove(i), w2, j));
    }
}

pub proof fn lemma_queue_parent_push(q: Seq<Node>, x: Node, j: int)
    requires
        queue_parent(q, j),
    ensures
        queue_parent(q.push(x), j),
{
    let w = choose|w: int| 0 <= w < q.len() && #[trigger] is_child_of(q, w, j);
    assert(q.push(x)[w] == q[w]);
    assert(is_child_of(q.push(x), w, j));
}

pub proof fn lemma_has_parent_push(nodes: Seq<Node>, x: Node, j: int)
    requires
        has_parent(nodes, j),
    ensures
        has_parent(nodes.push(x), j),
{
    let w = choose|w: int| j < w < nodes.len() && #[trigger] is_child_of(nodes, w, j);
    assert(nodes.push(x)[w] == nodes[w]);
    assert(is_child_of(nodes.push(x), w, j));
}

pub proof fn lemma_internal_total_push(s: Seq<Node>, x: Node)
    ensures
        internal_total(s.push(x)) == internal_total(s) + (if x.left is Some {
            1int
        } else {
            0int
        }),
{
    assert(s.push(x).drop_last() =~= s);
}

pub proof fn lemma_sum_freq_push(s: Seq<Node>, x: Node)
    ensures
        sum_freq(s.push(x)) == sum_freq(s) + x.freq,
{
    assert(s.push(x).drop_last() =~= s);
}

pub proof fn lemma_distinct_upto_monotone(s: Seq<u8>, n1: int, n2: int)
    requires
        0 <= n1 <= n2,
    ensures
        distinct_upto(s, n1) <= distinct_upto(s, n2),
    decreases n2 - n1,
{
    if n1 < n2 {
        lemma_distinct_upto_monotone(s, n1, n2 - 1);
    }
}

/// A stream's last byte occurs in it, so a nonempty stream has a distinct
/// byte value.
pub proof fn lemma_nonempty_has_distinct(s: Seq<u8>)
    requires
        s.len() > 0,
    ensures
        distinct_count(s) >= 1,
{
    let b = s.last();
    assert(count_byte(s, b) > 0);
    assert(distinct_upto(s, b + 1) >= 1);
    lemma_distinct_upto_monotone(s, b + 1, 256);
}

/// Children, symbol and frequency agree; only the depth may differ.
pub open spec fn node_same_shape(a: Node, b: Node) -> bool {
    a.left == b.left && a.right == b.right && a.symbol == b.symbol && a.freq == b.freq
}

/// Working state of the depth pass: node `j` already has a depth one level
/// below a parent at position `lo` or later.
pub open spec fn depth_assign_linked(
    nodes: Seq<Node>,
    depths: Seq<Option<u8>>,
    j: int,
    lo: int,
) -> bool {
    exists|p: int|
        j < p < nodes.len() && lo <= p && #[trigger] is_child_of(nodes, p, j) && depths[p]
            is Some && depths[j] is Some && depths[j].unwrap() == depths[p].unwrap() + 1
}

/// Record a node's depth; everything else about the arena is untouched.
fn set_node_depth(nodes: &mut Vec<Node>, c: usize, d: u8)
    requires
        c < old(nodes)@.len(),
    ensures
        final(nodes)@.len() == old(nodes)@.len(),
        forall|j: int| 0 <= j < old(nodes)@.len() && j != c ==> final(nodes)@[j] == old(nodes)@[j],
        final(nodes)@[c as int].depth == Some(d),
        node_same_shape(final(nodes)@[c as int], old(nodes)@[c as int]),
        arena_wf(old(nodes)@) ==> arena_wf(final(nodes)@),
        covered(old(nodes)@) ==> covered(final(nodes)@),
        internal_total(final(nodes)@) == internal_total(old(nodes)@),
{
    let ghost s0 = nodes@;
    let mut nd = nodes[c];
    nd.depth = Some(d);
    nodes[c] = nd;
    proof {
        assert(nodes@ =~= s0.update(c as int, nd));
        lemma_internal_count_update(s0, c as int, nd, 0, s0.len() as int);
        lemma_internal_count_is_total(s0);
        lemma_internal_count_is_total(nodes@);
        if arena_wf(s0) {
            assert forall|i: int| 0 <= i < nodes@.len() implies node_shape_wf(nodes@, i) by {
                assert(node_shape_wf(s0, i));
            }
        }
        if covered(s0) {
            assert forall|j: int| 0 <= j < nodes@.len() - 1 implies #[trigger] has_parent(
                nodes@,
                j,
            ) by {
                assert(has_parent(s0, j));
                let w = choose|w: int| j < w < s0.len() && #[trigger] is_child_of(s0, w, j);
                assert(nodes@[w].left == s0[w].left && nodes@[w].right == s0[w].right);
                assert(is_child_of(nodes@, w, j));
            }
        }
    }
}

/// After writing both children of the processed node `i`, every assigned
/// node is still linked to a parent at `i` or later.
proof fn lemma_depth_step_links(
    orig: Seq<Node>,
    db: Seq<Option<u8>>,
    d2: Seq<Option<u8>>,
    lc: int,
    rc: int,
    i: int,
    d: u8,
)
    requires
        orig.len() <= usize::MAX,
        orig.len() == db.len(),
        d + 1 <= 255,
        d2 == db.update(lc, Some((d + 1) as u8)).update(rc, Some((d + 1) as u8)),
        0 <= lc < i,
        0 <= rc < i,
        lc != rc,
        i < orig.len(),
        db[i] == Some(d),
        is_child_of(orig, i, lc),
        is_child_of(orig, i, rc),
        forall|j: int|
            0 <= j < orig.len() - 1 && (#[trigger] db[j]) is Some ==> depth_assign_linked(
                orig,
                db,
                j,
                i + 1,
            ),
    ensures
        forall|j: int|
            0 <= j < orig.len() - 1 && (#[trigger] d2[j]) is Some ==> depth_assign_linked(
                orig,
                d2,
                j,
                i,
            ),
{
    let n = orig.len() as int;
    assert(d2[i] == Some(d));
    assert forall|j: int|
        0 <= j < n - 1 && (#[trigger] d2[j]) is Some implies depth_assign_linked(
        orig,
        d2,
        j,
        i,
    ) by {
        if j == lc || j == rc {
            assert(d2[j] == Some((d + 1) as u8));
            assert(depth_assign_linked(orig, d2, j, i));
        } else {
            assert(d2[j] == db[j]);
            assert(depth_assign_linked(orig, db, j, i + 1));
            let p = choose|p: int|
                j < p < n && i + 1 <= p && #[trigger] is_child_of(orig, p, j) && db[p] is Some
                    && db[j] is Some && db[j].unwrap() == db[p].unwrap() + 1;
            assert(d2[p] == db[p]);
            assert(depth_assign_linked(orig, d2, j, i));
        }
    }
}

/// The two new depth entries respect the internal-node bound, and the old
/// entries keep it.
proof fn lemma_depth_step_bound(
    orig: Seq<Node>,
    db: Seq<Option<u8>>,
    d2: Seq<Option<u8>>,
    lc: int,
    rc: int,
    i: int,
    d: u8,
)
    requires
        orig.len() <= usize::MAX,
        orig.len() == db.len(),
        d + 1 <= 255,
        d2 == db.update(lc, Some((d + 1) as u8)).update(rc, Some((d + 1) as u8)),
        0 <= lc < i,
        0 <= rc < i,
        lc != rc,
        i < orig.len(),
        orig[i].left is Some,
        d <= internal_count(orig, i + 1, orig.len() as int),
        forall|j: int|
            0 <= j < orig.len() && (#[trigger] db[j]) is Some ==> db[j].unwrap()
                <= internal_count(orig, j + 1, orig.len() as int),
    ensures
        forall|j: int|
            0 <= j < orig.len() && (#[trigger] d2[j]) is Some ==> d2[j].unwrap()
                <= internal_count(orig, j + 1, orig.len() as int),
{
    let n = orig.len() as int;
    assert forall|j: int|
        0 <= j < n && (#[trigger] d2[j]) is Some implies d2[j].unwrap() <= internal_count(
        orig,
        j + 1,
        n,
    ) by {
        if j == lc || j == rc {
            lemma_internal_count_split(orig, j + 1, i, n);
            lemma_internal_count_split(orig, i, i + 1, n);
            assert(internal_count(orig, i, i) == 0);
            assert(internal_count(orig, i, i + 1) == 1);
        } else {
            assert(d2[j] == db[j]);
        }
    }
}

/// Children of every node processed so far, now including `i`, have depths.
proof fn lemma_depth_step_children(
    orig: Seq<Node>,
    db: Seq<Option<u8>>,
    d2: Seq<Option<u8>>,
    lc: int,
    rc: int,
    i: int,
    d: u8,
)
    requires
        orig.len() <= usize::MAX,
        orig.len() == db.len(),
        arena_wf(orig),
        d + 1 <= 255,
        d2 == db.update(lc, Some((d + 1) as u8)).update(rc, Some((d + 1) as u8)),
        0 <= lc < i,
        0 <= rc < i,
        lc != rc,
        i < orig.len(),
        orig[i].left == Some(lc as usize),
        orig[i].right == Some(rc as usize),
        forall|p: int|
            i + 1 <= p < orig.len() && (#[trigger] orig[p]).left is Some ==> db[
                orig[p].left.unwrap() as int
            ] is Some && db[orig[p].right.unwrap() as int] is Some,
    ensures
        forall|p: int|
            i <= p < orig.len() && (#[trigger] orig[p]).left is Some ==> d2[
                orig[p].left.unwrap() as int
            ] is Some && d2[orig[p].right.unwrap() as int] is Some,
        forall|j: int| 0 <= j < orig.len() && (#[trigger] db[j]) is Some ==> d2[j] is Some,
{
    let n = orig.len() as int;
    assert forall|p: int|
        i <= p < n && (#[trigger] orig[p]).left is Some implies d2[
        orig[p].left.unwrap() as int
    ] is Some && d2[orig[p].right.unwrap() as int] is Some by {
        if p > i {
            assert(node_shape_wf(orig, p));
            assert(orig[p].left.unwrap() < orig[p].right.unwrap() < p);
            assert(db[orig[p].left.unwrap() as int] is Some);
            assert(db[orig[p].right.unwrap() as int] is Some);
            assert(d2[orig[p].left.unwrap() as int] is Some);
            assert(d2[orig[p].right.unwrap() as int] is Some);
        } else {
            assert(orig[p].left.unwrap() as int == lc);
            assert(orig[p].right.unwrap() as int == rc);
            assert(d2[rc] == Some((d + 1) as u8));
            assert(d2[lc] == db.update(lc, Some((d + 1) as u8))[lc]);
            assert(d2[lc] == Some((d + 1) as u8));
        }
    }
}

/// A link to a parent at `lo + 1` or later is also one at `lo` or later.
proof fn lemma_linked_weaken(orig: Seq<Node>, db: Seq<Option<u8>>, lo: int)
    requires
        forall|j: int|
            0 <= j < orig.len() - 1 && (#[trigger] db[j]) is Some ==> depth_assign_linked(
                orig,
                db,
                j,
                lo + 1,
            ),
    ensures
        forall|j: int|
            0 <= j < orig.len() - 1 && (#[trigger] db[j]) is Some ==> depth_assign_linked(
                orig,
                db,
                j,
                lo,
            ),
{
    let n = orig.len() as int;
    assert forall|j: int|
        0 <= j < n - 1 && (#[trigger] db[j]) is Some implies depth_assign_linked(
        orig,
        db,
        j,
        lo,
    ) by {
        assert(depth_assign_linked(orig, db, j, lo + 1));
        let p = choose|p: int|
            j < p < n && lo + 1 <= p && #[trigger] is_child_of(orig, p, j) && db[p] is Some
                && db[j] is Some && db[j].unwrap() == db[p].unwrap() + 1;
        assert(depth_assign_linked(orig, db, j, lo));
    }
}

/// The working invariant of the depth pass at bound `i`: nodes at `i` and
/// later have depths, children of processed internals have depths, every
/// assigned node other than the root is linked to a processed parent, and
/// every assigned depth respects the internal-node bound.
pub open spec fn depth_pass_inv(orig: Seq<Node>, depths: Seq<Option<u8>>, i: int) -> bool {
    let n = orig.len() as int;
    &&& depths.len() == n
    &&& n >= 1
    &&& depths[n - 1] == Some(0u8)
    &&& forall|j: int| i <= j < n ==> (#[trigger] depths[j]) is Some
    &&& forall|p: int|
        i <= p < n && (#[trigger] orig[p]).left is Some ==> depths[orig[p].left.unwrap() as int]
            is Some && depths[orig[p].right.unwrap() as int] is Some
    &&& forall|p: int|
        i <= p < n && (#[trigger] orig[p]).left is Some ==> depths[orig[p].left.unwrap() as int]
            == Some((depths[p].unwrap() + 1) as u8) && depths[orig[p].right.unwrap() as int]
            == Some((depths[p].unwrap() + 1) as u8)
    &&& forall|j: int|
        0 <= j < n - 1 && (#[trigger] depths[j]) is Some ==> depth_assign_linked(
            orig,
            depths,
            j,
            i,
        )
    &&& forall|j: int|
        0 <= j < n && (#[trigger] depths[j]) is Some ==> depths[j].unwrap() <= internal_count(
            orig,
            j + 1,
            n,
        )
}

/// The node reached by the downward pass already has its depth: it is the
/// root, or the child of some processed parent.
proof fn lemma_pass_node_has_depth(orig: Seq<Node>, depths: Seq<Option<u8>>, i: int)
    requires
        orig.len() <= usize::MAX,
        arena_wf(orig),
        covered(orig),
        0 <= i < orig.len(),
        depth_pass_inv(orig, depths, i + 1),
    ensures
        depths[i] is Some,
        orig[i].left is Some ==> orig[i].left.unwrap() < orig[i].right.unwrap() < i,
{
    let n = orig.len() as int;
    if i < n - 1 {
        assert(has_parent(orig, i));
        let p = choose|p: int| i < p < n && #[trigger] is_child_of(orig, p, i);
        assert(node_shape_wf(orig, p));
        assert(orig[p].left is Some);
        assert(depths[orig[p].left.unwrap() as int] is Some);
        assert(depths[orig[p].right.unwrap() as int] is Some);
    }
    assert(node_shape_wf(orig, i));
}

/// One step of the downward pass: writing both children of the internal
/// node `i` re-establishes the invariant at `i`.
proof fn lemma_depth_pass_step(
    orig: Seq<Node>,
    db: Seq<Option<u8>>,
    d2: Seq<Option<u8>>,
    lc: int,
    rc: int,
    i: int,
    d: u8,
)
    requires
        orig.len() <= usize::MAX,
        arena_wf(orig),
        parents_unique(orig),
        d + 1 <= 255,
        0 <= i < orig.len(),
        orig[i].left == Some(lc as usize),
        orig[i].right == Some(rc as usize),
        0 <= lc < rc < i,
        db[i] == Some(d),
        d2 == db.update(lc, Some((d + 1) as u8)).update(rc, Some((d + 1) as u8)),
        depth_pass_inv(orig, db, i + 1),
    ensures
        depth_pass_inv(orig, d2, i),
{
    assert(is_child_of(orig, i, lc));
    assert(is_child_of(orig, i, rc));
    assert(node_shape_wf(orig, i));
    assert(db[i].unwrap() <= internal_count(orig, i + 1, orig.len() as int));
    lemma_depth_step_links(orig, db, d2, lc, rc, i, d);
    lemma_depth_step_bound(orig, db, d2, lc, rc, i, d);
    lemma_depth_step_children(orig, db, d2, lc, rc, i, d);
    assert forall|j: int| i <= j < orig.len() implies (#[trigger] d2[j]) is Some by {
        if j > i {
            assert(db[j] is Some);
        } else {
            assert(d2[i] == db[i]);
        }
    }
    // With unique parents the two freshly written entries belong to `i`
    // alone, so every processed node keeps its exact child depths.
    assert forall|p: int|
        i <= p < orig.len() && (#[trigger] orig[p]).left is Some implies d2[
        orig[p].left.unwrap() as int
    ] == Some((d2[p].unwrap() + 1) as u8) && d2[orig[p].right.unwrap() as int] == Some((d2[
        p
    ].unwrap() + 1) as u8) by {
        if p == i {
            assert(d2[i] == db[i]);
            assert(d2[lc] == Some((d + 1) as u8) && d2[rc] == Some((d + 1) as u8));
        } else {
            assert(node_shape_wf(orig, p));
            let pl = orig[p].left.unwrap() as int;
            let pr = orig[p].right.unwrap() as int;
            assert(is_child_of(orig, p, pl) && is_child_of(orig, p, pr));
            assert(is_child_of(orig, i, lc) && is_child_of(orig, i, rc));
            assert(pl != lc && pl != rc && pr != lc && pr != rc);
            assert(d2[pl] == db[pl] && d2[pr] == db[pr] && d2[p] == db[p]);
        }
    }
}

/// One step of the downward pass over a leaf: nothing is written.
proof fn lemma_depth_pass_skip(orig: Seq<Node>, db: Seq<Option<u8>>, i: int)
    requires
        arena_wf(orig),
        0 <= i < orig.len(),
        orig[i].left is None,
        db[i] is Some,
        depth_pass_inv(orig, db, i + 1),
    ensures
        depth_pass_inv(orig, db, i),
{
    lemma_linked_weaken(orig, db, i);
    assert forall|p: int|
        i <= p < orig.len() && (#[trigger] orig[p]).left is Some implies db[
        orig[p].left.unwrap() as int
    ] is Some && db[orig[p].right.unwrap() as int] is Some by {
        assert(p != i);
    }
    assert forall|p: int|
        i <= p < orig.len() && (#[trigger] orig[p]).left is Some implies db[
        orig[p].left.unwrap() as int
    ] == Some((db[p].unwrap() + 1) as u8) && db[orig[p].right.unwrap() as int] == Some((db[
        p
    ].unwrap() + 1) as u8) by {
        assert(p != i);
    }
}

/// With at least two nodes the root is internal: the next-to-last node's
/// only possible parent is the root.
pub proof fn lemma_root_internal(nodes: Seq<Node>)
    requires
        arena_wf(nodes),
        covered(nodes),
        nodes.len() >= 2,
    ensures
        nodes[nodes.len() - 1].left is Some,
{
    let n = nodes.len() as int;
    assert(has_parent(nodes, n - 2));
    let p = choose|p: int| n - 2 < p < n && #[trigger] is_child_of(nodes, p, n - 2);
    assert(p == n - 1);
    assert(node_shape_wf(nodes, p));
}

/// Extending a prefix by one node adds exactly that node's leaf, if any.
pub proof fn lemma_has_leaf_take_step(s: Seq<Node>, i: int, b: u8)
    requires
        0 <= i < s.len(),
    ensures
        has_leaf(s.take(i + 1), b) <==> (has_leaf(s.take(i), b) || (node_is_leaf(s[i])
            && s[i].symbol == Some(b))),
{
    assert(s.take(i + 1) =~= s.take(i).push(s[i]));
    if has_leaf(s.take(i + 1), b) {
        let w = choose|w: int|
            0 <= w < s.take(i + 1).len() && node_is_leaf(#[trigger] s.take(i + 1)[w]) && s.take(
                i + 1,
            )[w].symbol == Some(b);
        if w < i {
            assert(s.take(i)[w] == s.take(i + 1)[w]);
        } else {
            assert(s.take(i + 1)[w] == s[i]);
        }
    }
    if has_leaf(s.take(i), b) || (node_is_leaf(s[i]) && s[i].symbol == Some(b)) {
        lemma_has_leaf_push(s.take(i), s[i], b);
    }
}

/// Within one node sequence, no two leaves carry the same symbol.
pub open spec fn leaf_syms_unique(s: Seq<Node>) -> bool {
    forall|i1: int, i2: int|
        0 <= i1 < s.len() && 0 <= i2 < s.len() && i1 != i2 && node_is_leaf(#[trigger] s[i1])
            && node_is_leaf(#[trigger] s[i2]) ==> s[i1].symbol != s[i2].symbol
}

/// No leaf symbol appears in both sequences.
pub open spec fn leaf_syms_disjoint(a: Seq<Node>, b: Seq<Node>) -> bool {
    forall|i: int, j: int|
        0 <= i < a.len() && 0 <= j < b.len() && node_is_leaf(#[trigger] a[i]) && node_is_leaf(
            #[trigger] b[j],
        ) ==> a[i].symbol != b[j].symbol
}

/// Each arena position is the child of at most one node of the sequence.
pub open spec fn parents_unique(s: Seq<Node>) -> bool {
    forall|k1: int, k2: int, j: int|
        0 <= k1 < s.len() && 0 <= k2 < s.len() && k1 != k2 ==> !(#[trigger] is_child_of(s, k1, j)
            && #[trigger] is_child_of(s, k2, j))
}

/// No arena position is claimed as a child by nodes of both sequences.
pub open spec fn parents_disjoint(a: Seq<Node>, b: Seq<Node>) -> bool {
    forall|k: int, qi: int, j: int|
        0 <= k < a.len() && 0 <= qi < b.len() ==> !(#[trigger] is_child_of(a, k, j)
            && #[trigger] is_child_of(b, qi, j))
}

/// Every internal node's children lie exactly one level below it.
pub open spec fn children_depths(nodes: Seq<Node>) -> bool {
    forall|p: int|
        0 <= p < nodes.len() && (#[trigger] nodes[p]).left is Some ==> nodes[
            nodes[p].left.unwrap() as int
        ].depth == Some((nodes[p].depth.unwrap() + 1) as u8) && nodes[
            nodes[p].right.unwrap() as int
        ].depth == Some((nodes[p].depth.unwrap() + 1) as u8)
}

/// Every internal node's frequency is the sum of its children's.
pub open spec fn freq_linked(nodes: Seq<Node>) -> bool {
    forall|i: int|
        0 <= i < nodes.len() && (#[trigger] nodes[i]).left is Some ==> nodes[i].freq == nodes[
            nodes[i].left.unwrap() as int
        ].freq + nodes[nodes[i].right.unwrap() as int].freq
}

/// Internal queue entries also sum their (arena) children's frequencies.
pub open spec fn queue_freq_linked(q: Seq<Node>, nodes: Seq<Node>) -> bool {
    forall|qi: int|
        0 <= qi < q.len() && (#[trigger] q[qi]).left is Some ==> q[qi].freq == nodes[
            q[qi].left.unwrap() as int
        ].freq + nodes[q[qi].right.unwrap() as int].freq
}

/// Where a queue entry stood before the two removals of a merge step.
pub open spec fn survivor_origin(m1: int, m2: int, qi: int) -> int {
    let w1 = if qi < m2 {
        qi
    } else {
        qi + 1
    };
    if w1 < m1 {
        w1
    } else {
        w1 + 1
    }
}

/// A surviving queue entry is an untouched entry of the pre-merge queue.
pub proof fn lemma_survivor_origin(q0: Seq<Node>, m1: int, m2: int, qi: int)
    requires
        0 <= m1 < q0.len(),
        0 <= m2 < q0.len() - 1,
        0 <= qi < q0.len() - 2,
    ensures
        ({
            let w0 = survivor_origin(m1, m2, qi);
            &&& 0 <= w0 < q0.len()
            &&& w0 != m1
            &&& w0 != (if m2 < m1 {
                m2
            } else {
                m2 + 1
            })
            &&& q0.remove(m1).remove(m2)[qi] == q0[w0]
        }),
{
    let w1 = if qi < m2 {
        qi
    } else {
        qi + 1
    };
    lemma_remove_index(q0.remove(m1), m2, qi);
    lemma_remove_index(q0, m1, w1);
}

/// The scaled Kraft mass of a length vector: each positive entry `L`
/// contributes `2^(255 - L)`.
pub open spec fn sym_kraft(lens: Seq<u8>, n: int) -> int
    decreases n,
{
    if n <= 0 {
        0
    } else {
        sym_kraft(lens, n - 1) + if lens[n - 1] > 0 {
            pow2((255 - lens[n - 1]) as nat) as int
        } else {
            0
        }
    }
}

/// The scaled Kraft mass of the arena's leaves: each leaf at depth `d`
/// contributes `2^(255 - d)`.
pub open spec fn leaf_weight_sum(nodes: Seq<Node>, m: int) -> int
    decreases m,
{
    if m <= 0 {
        0
    } else {
        leaf_weight_sum(nodes, m - 1) + if node_is_leaf(nodes[m - 1]) {
            pow2((255 - nodes[m - 1].depth.unwrap()) as nat) as int
        } else {
            0
        }
    }
}

proof fn lemma_sym_kraft_update(lens: Seq<u8>, b: int, v: u8, n: int)
    requires
        0 <= b < lens.len(),
        lens[b] == 0,
        v > 0,
        n <= lens.len(),
    ensures
        sym_kraft(lens.update(b, v), n) == sym_kraft(lens, n) + if b < n {
            pow2((255 - v) as nat) as int
        } else {
            0
        },
    decreases n,
{
    if n > 0 {
        lemma_sym_kraft_update(lens, b, v, n - 1);
        assert(lens.update(b, v)[n - 1] == (if n - 1 == b {
            v
        } else {
            lens[n - 1]
        }));
    }
}

proof fn lemma_sym_kraft_all_zero(lens: Seq<u8>, n: int)
    requires
        forall|j: int| 0 <= j < lens.len() ==> #[trigger] lens[j] == 0,
        n <= lens.len(),
    ensures
        sym_kraft(lens, n) == 0,
    decreases n,
{
    if n > 0 {
        lemma_sym_kraft_all_zero(lens, n - 1);
        assert(lens[n - 1] == 0);
    }
}

/// The Kraft mass of the subtree rooted at `i`: the sum of its leaves'
/// masses, one `2^(255 - depth)` term per leaf.
pub open spec fn subtree_weight(nodes: Seq<Node>, i: int) -> int
    decreases i,
{
    if i < 0 || i >= nodes.len() {
        0
    } else if nodes[i].left is Some {
        let l = nodes[i].left.unwrap() as int;
        let r = nodes[i].right.unwrap() as int;
        if 0 <= l < i && 0 <= r < i {
            subtree_weight(nodes, l) + subtree_weight(nodes, r)
        } else {
            0
        }
    } else {
        pow2((255 - nodes[i].depth.unwrap()) as nat) as int
    }
}

/// No node of the prefix of length `m` has `j` as a child.
pub open spec fn prefix_root(nodes: Seq<Node>, m: int, j: int) -> bool {
    !(exists|k: int| j < k < m && #[trigger] is_child_of(nodes, k, j))
}

/// Sum of the subtree masses of the prefix-roots below `j`.
pub open spec fn root_sum(nodes: Seq<Node>, m: int, j: int) -> int
    decreases j,
{
    if j <= 0 {
        0
    } else {
        root_sum(nodes, m, j - 1) + if prefix_root(nodes, m, j - 1) {
            subtree_weight(nodes, j - 1)
        } else {
            0
        }
    }
}

/// In a well-formed arena every subtree's mass is the mass of one node at
/// its root's depth: each level splits it exactly in half.
proof fn lemma_subtree_weight_val(nodes: Seq<Node>, i: int)
    requires
        arena_wf(nodes),
        children_depths(nodes),
        forall|j: int| 0 <= j < nodes.len() ==> (#[trigger] nodes[j]).depth is Some,
        forall|j: int|
            0 <= j < nodes.len() ==> (#[trigger] nodes[j]).depth.unwrap() <= internal_count(
                nodes,
                j + 1,
                nodes.len() as int,
            ),
        internal_total(nodes) <= 255,
        0 <= i < nodes.len(),
    ensures
        subtree_weight(nodes, i) == pow2((255 - nodes[i].depth.unwrap()) as nat),
    decreases i,
{
    let n = nodes.len() as int;
    assert(node_shape_wf(nodes, i));
    if nodes[i].left is Some {
        let l = nodes[i].left.unwrap() as int;
        let r = nodes[i].right.unwrap() as int;
        let d = nodes[i].depth.unwrap() as int;
        lemma_subtree_weight_val(nodes, l);
        lemma_subtree_weight_val(nodes, r);
        // An internal node sits above at least one further internal node's
        // worth of headroom, so one more level still fits.
        lemma_internal_count_is_total(nodes);
        lemma_internal_count_split(nodes, 0, i, i + 1);
        lemma_internal_count_split(nodes, 0, i + 1, n);
        assert(internal_count(nodes, i, i) == 0);
        assert(internal_count(nodes, i, i + 1) == 1);
        assert(d <= 254);
        assert(nodes[l].depth == Some((d + 1) as u8));
        assert(nodes[r].depth == Some((d + 1) as u8));
        lemma_pow2_unfold((255 - d) as nat);
    }
}

/// Removing an internal last node from view frees exactly its two children
/// as new prefix-roots; removing a leaf changes nothing below it.
proof fn lemma_root_sum_shift(nodes: Seq<Node>, m: int, j: int)
    requires
        arena_wf(nodes),
        parents_unique(nodes),
        1 <= m <= nodes.len(),
        0 <= j <= m - 1,
    ensures
        nodes[m - 1].left is Some ==> root_sum(nodes, m, j) == root_sum(nodes, m - 1, j) - (if (
        nodes[m - 1].left.unwrap() as int) < j {
            subtree_weight(nodes, nodes[m - 1].left.unwrap() as int)
        } else {
            0
        }) - (if (nodes[m - 1].right.unwrap() as int) < j {
            subtree_weight(nodes, nodes[m - 1].right.unwrap() as int)
        } else {
            0
        }),
        nodes[m - 1].left is None ==> root_sum(nodes, m, j) == root_sum(nodes, m - 1, j),
    decreases j,
{
    if j > 0 {
        lemma_root_sum_shift(nodes, m, j - 1);
        let x = j - 1;
        if nodes[m - 1].left is Some {
            assert(node_shape_wf(nodes, m - 1));
            let lc = nodes[m - 1].left.unwrap() as int;
            let rc = nodes[m - 1].right.unwrap() as int;
            if x == lc || x == rc {
                // Its only parent is the removed node, so it becomes a root.
                assert(is_child_of(nodes, m - 1, x));
                assert(!prefix_root(nodes, m, x));
                assert forall|k: int| x < k < m - 1 implies !is_child_of(nodes, k, x) by {
                    if is_child_of(nodes, k, x) {
                        assert(is_child_of(nodes, m - 1, x));
                    }
                }
                assert(prefix_root(nodes, m - 1, x));
            } else {
                assert(prefix_root(nodes, m, x) == prefix_root(nodes, m - 1, x)) by {
                    if !prefix_root(nodes, m, x) {
                        let k = choose|k: int| x < k < m && #[trigger] is_child_of(nodes, k, x);
                        assert(k != m - 1);
                        assert(!prefix_root(nodes, m - 1, x));
                    }
                    if !prefix_root(nodes, m - 1, x) {
                        let k = choose|k: int|
                            x < k < m - 1 && #[trigger] is_child_of(nodes, k, x);
                        assert(!prefix_root(nodes, m, x));
                    }
                }
            }
        } else {
            assert(node_shape_wf(nodes, m - 1));
            assert(nodes[m - 1].right is None);
            assert(prefix_root(nodes, m, x) == prefix_root(nodes, m - 1, x)) by {
                if !prefix_root(nodes, m, x) {
                    let k = choose|k: int| x < k < m && #[trigger] is_child_of(nodes, k, x);
                    assert(k != m - 1);
                    assert(!prefix_root(nodes, m - 1, x));
                }
                if !prefix_root(nodes, m - 1, x) {
                    let k = choose|k: int| x < k < m - 1 && #[trigger] is_child_of(nodes, k, x);
                    assert(!prefix_root(nodes, m, x));
                }
            }
        }
    }
}

/// The prefix-roots of any prefix carry exactly the mass of its leaves.
proof fn lemma_root_sum_partition(nodes: Seq<Node>, m: int)
    requires
        arena_wf(nodes),
        parents_unique(nodes),
        0 <= m <= nodes.len(),
    ensures
        root_sum(nodes, m, m) == leaf_weight_sum(nodes, m),
    decreases m,
{
    if m > 0 {
        lemma_root_sum_partition(nodes, m - 1);
        lemma_root_sum_shift(nodes, m, m - 1);
        assert(prefix_root(nodes, m, m - 1)) by {
            if !prefix_root(nodes, m, m - 1) {
                let k = choose|k: int|
                    m - 1 < k < m && #[trigger] is_child_of(nodes, k, m - 1);
            }
        }
        assert(root_sum(nodes, m, m) == root_sum(nodes, m, m - 1) + subtree_weight(
            nodes,
            m - 1,
        ));
        if nodes[m - 1].left is Some {
            assert(node_shape_wf(nodes, m - 1));
            let lc = nodes[m - 1].left.unwrap() as int;
            let rc = nodes[m - 1].right.unwrap() as int;
            assert(0 <= lc < m - 1 && 0 <= rc < m - 1);
            assert(root_sum(nodes, m, m - 1) == root_sum(nodes, m - 1, m - 1) - subtree_weight(
                nodes,
                lc,
            ) - subtree_weight(nodes, rc));
            assert(subtree_weight(nodes, m - 1) == subtree_weight(nodes, lc) + subtree_weight(
                nodes,
                rc,
            ));
            assert(leaf_weight_sum(nodes, m) == leaf_weight_sum(nodes, m - 1));
        } else {
            assert(node_shape_wf(nodes, m - 1));
            assert(node_is_leaf(nodes[m - 1]));
            assert(root_sum(nodes, m, m - 1) == root_sum(nodes, m - 1, m - 1));
            assert(subtree_weight(nodes, m - 1) == pow2(
                (255 - nodes[m - 1].depth.unwrap()) as nat,
            ) as int);
            assert(leaf_weight_sum(nodes, m) == leaf_weight_sum(nodes, m - 1) + pow2(
                (255 - nodes[m - 1].depth.unwrap()) as nat,
            ) as int);
        }
    }
}

/// Kraft equality for the whole arena: its leaves' masses sum to the mass
/// of a single depth-zero node.
pub proof fn lemma_tree_kraft(nodes: Seq<Node>)
    requires
        arena_wf(nodes),
        covered(nodes),
        parents_unique(nodes),
        children_depths(nodes),
        forall|j: int| 0 <= j < nodes.len() ==> (#[trigger] nodes[j]).depth is Some,
        forall|j: int|
            0 <= j < nodes.len() ==> (#[trigger] nodes[j]).depth.unwrap() <= internal_count(
                nodes,
                j + 1,
                nodes.len() as int,
            ),
        internal_total(nodes) <= 255,
        nodes.len() >= 1,
        nodes[nodes.len() - 1].depth == Some(0u8),
    ensures
        leaf_weight_sum(nodes, nodes.len() as int) == pow2(255),
{
    let n = nodes.len() as int;
    lemma_root_sum_partition(nodes, n);
    assert forall|j: int| 0 <= j <= n - 1 implies root_sum(nodes, n, j) == 0 by {
        lemma_root_sum_all_covered(nodes, j);
    }
    assert(root_sum(nodes, n, n) == root_sum(nodes, n, n - 1) + (if prefix_root(nodes, n, n - 1) {
        subtree_weight(nodes, n - 1)
    } else {
        0
    }));
    assert(prefix_root(nodes, n, n - 1)) by {
        if !prefix_root(nodes, n, n - 1) {
            let k = choose|k: int| n - 1 < k < n && #[trigger] is_child_of(nodes, k, n - 1);
        }
    }
    lemma_subtree_weight_val(nodes, n - 1);
}

/// Kraft equality for the code lengths a frequency tree yields: the masses
/// `2^(255 - L[b])` of the used entries sum to exactly `2^255` — that is,
/// the lengths satisfy the Kraft sum `1` of a complete prefix code — as
/// soon as the tree has an internal node (two or more distinct symbols).
pub proof fn lemma_kraft_equality(nodes: Seq<Node>, lens: Seq<u8>)
    requires
        arena_wf(nodes),
        covered(nodes),
        parents_unique(nodes),
        children_depths(nodes),
        forall|j: int| 0 <= j < nodes.len() ==> (#[trigger] nodes[j]).depth is Some,
        forall|j: int|
            0 <= j < nodes.len() ==> (#[trigger] nodes[j]).depth.unwrap() <= internal_count(
                nodes,
                j + 1,
                nodes.len() as int,
            ),
        internal_total(nodes) <= 255,
        nodes.len() >= 2,
        nodes[nodes.len() - 1].depth == Some(0u8),
        sym_kraft(lens, 256) == leaf_weight_sum(nodes, nodes.len() as int),
    ensures
        sym_kraft(lens, 256) == pow2(255),
{
    lemma_tree_kraft(nodes);
}

/// Every covered position contributes nothing to the root sum.
proof fn lemma_root_sum_all_covered(nodes: Seq<Node>, j: int)
    requires
        covered(nodes),
        0 <= j <= nodes.len() - 1,
    ensures
        root_sum(nodes, nodes.len() as int, j) == 0,
    decreases j,
{
    if j > 0 {
        lemma_root_sum_all_covered(nodes, j - 1);
        assert(has_parent(nodes, j - 1));
        let k = choose|k: int|
            j - 1 < k < nodes.len() && #[trigger] is_child_of(nodes, k, j - 1);
        assert(!prefix_root(nodes, nodes.len() as int, j - 1));
    }
}

/// First index of the minimum under the queue order, scanning from `i` with
/// current best `best` — the mirror of the selection loop.
#[verifier::opaque]
pub open spec fn spec_min_from(q: Seq<Node>, best: int, i: int) -> int
    decreases q.len() - i,
{
    if i < 0 || i >= q.len() {
        best
    } else if spec_precedes(q[i], q[best]) {
        spec_min_from(q, i, i + 1)
    } else {
        spec_min_from(q, best, i + 1)
    }
}

pub open spec fn spec_min_index(q: Seq<Node>) -> int {
    spec_min_from(q, 0, 1)
}

/// The leaves the construction seeds for the byte values below `n`, in
/// ascending symbol order.
pub open spec fn spec_seed(input: Seq<u8>, n: int) -> Seq<Node>
    decreases n,
{
    if n <= 0 {
        Seq::empty()
    } else if count_byte(input, (n - 1) as u8) > 0 {
        spec_seed(input, n - 1).push(
            Node {
                freq: count_byte(input, (n - 1) as u8) as u64,
                symbol: Some((n - 1) as u8),
                left: None,
                right: None,
                depth: None,
            },
        )
    } else {
        spec_seed(input, n - 1)
    }
}

/// The merge phase as a function: pop the two least entries, append them,
/// queue their parent; append the survivor last.
#[verifier::opaque]
pub open spec fn spec_build(q: Seq<Node>, arena: Seq<Node>) -> Seq<Node>
    decreases q.len(),
{
    if q.len() <= 1 {
        if q.len() == 1 {
            arena.push(q[0])
        } else {
            arena
        }
    } else {
        let m1 = spec_min_index(q);
        if 0 <= m1 < q.len() {
            let l = q[m1];
            let q1 = q.remove(m1);
            let m2 = spec_min_index(q1);
            if 0 <= m2 < q1.len() {
                let r = q1[m2];
                let q2 = q1.remove(m2);
                let a = arena.len() as int;
                let p = Node {
                    freq: (l.freq + r.freq) as u64,
                    symbol: None,
                    left: Some(a as usize),
                    right: Some((a + 1) as usize),
                    depth: None,
                };
                spec_build(q2.push(p), arena.push(l).push(r))
            } else {
                arena
            }
        } else {
            arena
        }
    }
}

/// The arena the construction yields for a byte stream, depths not yet
/// assigned.
pub open spec fn spec_arena(input: Seq<u8>) -> Seq<Node> {
    spec_build(spec_seed(input, 256), Seq::empty())
}

/// Depths are forced by the structure: in arenas of equal shape where the
/// root sits at depth zero and children one level below their parent, every
/// node's depth agrees. With the shape pinned, the whole tree is a function
/// of the input.
pub proof fn lemma_depths_determined(s1: Seq<Node>, s2: Seq<Node>, j: int)
    requires
        s1.len() == s2.len(),
        forall|t: int| 0 <= t < s1.len() ==> node_same_shape(#[trigger] s1[t], s2[t]),
        arena_wf(s1),
        covered(s1),
        children_depths(s1),
        children_depths(s2),
        forall|t: int| 0 <= t < s1.len() ==> (#[trigger] s1[t]).depth is Some,
        forall|t: int| 0 <= t < s2.len() ==> (#[trigger] s2[t]).depth is Some,
        s1.len() > 0,
        s1[s1.len() - 1].depth == Some(0u8),
        s2[s2.len() - 1].depth == Some(0u8),
        0 <= j < s1.len(),
    ensures
        s1[j].depth == s2[j].depth,
    decreases s1.len() - j,
{
    let n = s1.len() as int;
    if j < n - 1 {
        assert(has_parent(s1, j));
        let p = choose|p: int| j < p < n && #[trigger] is_child_of(s1, p, j);
        assert(node_same_shape(s1[p], s2[p]));
        assert(is_child_of(s2, p, j));
        assert(node_shape_wf(s1, p));
        assert(s1[p].left is Some);
        assert(s2[p].left is Some);
        lemma_depths_determined(s1, s2, p);
        assert(s1[j].depth == Some((s1[p].depth.unwrap() + 1) as u8));
        assert(s2[j].depth == Some((s2[p].depth.unwrap() + 1) as u8));
    }
}

/// One merge step rewrites the spec mirror exactly as the loop rewrites
/// its queue and arena.
proof fn lemma_build_step(q0: Seq<Node>, nodes0: Seq<Node>, m1: int, m2: int, l: Node, r: Node, p: Node)
    requires
        q0.len() >= 2,
        m1 == spec_min_index(q0),
        0 <= m1 < q0.len(),
        l == q0[m1],
        m2 == spec_min_index(q0.remove(m1)),
        0 <= m2 < q0.remove(m1).len(),
        r == q0.remove(m1)[m2],
        nodes0.len() + 1 <= usize::MAX,
        p == (Node {
            freq: (l.freq + r.freq) as u64,
            symbol: None,
            left: Some(nodes0.len() as usize),
            right: Some((nodes0.len() + 1) as usize),
            depth: None,
        }),
    ensures
        spec_build(q0, nodes0) == spec_build(
            q0.remove(m1).remove(m2).push(p),
            nodes0.push(l).push(r),
        ),
{
    reveal(spec_build);
}

/// The finished mirror when at most one queue entry remains.
proof fn lemma_build_done(q: Seq<Node>, arena: Seq<Node>)
    requires
        q.len() <= 1,
    ensures
        q.len() == 1 ==> spec_build(q, arena) == arena.push(q[0]),
        q.len() == 0 ==> spec_build(q, arena) == arena,
{
    reveal(spec_build);
}

/// `lens` is the code-length vector of the arena `nodes`, which is the
/// construction's tree for `input`, depths assigned.
pub open spec fn lens_of_arena(nodes: Seq<Node>, lens: Seq<u8>, input: Seq<u8>) -> bool {
    &&& nodes.len() == spec_arena(input).len()
    &&& forall|j: int|
        0 <= j < nodes.len() ==> node_same_shape(#[trigger] nodes[j], spec_arena(input)[j])
    &&& arena_wf(nodes)
    &&& covered(nodes)
    &&& children_depths(nodes)
    &&& forall|j: int| 0 <= j < nodes.len() ==> (#[trigger] nodes[j]).depth is Some
    &&& nodes.len() > 0 ==> nodes[nodes.len() - 1].depth == Some(0u8)
    &&& lens.len() == 256
    &&& forall|b: int| 0 <= b < 256 ==> ((#[trigger] lens[b] > 0) <==> has_leaf(nodes, b as u8))
    &&& forall|i: int|
        0 <= i < nodes.len() && node_is_leaf(#[trigger] nodes[i]) ==> lens[
            nodes[i].symbol.unwrap() as int
        ] == (if nodes.len() == 1 {
            1u8
        } else {
            nodes[i].depth.unwrap()
        })
}

/// Some tree of the construction for `input` has `lens` as its lengths.
pub open spec fn lens_of_tree(lens: Seq<u8>, input: Seq<u8>) -> bool {
    exists|nodes: Seq<Node>| #[trigger] lens_of_arena(nodes, lens, input)
}

/// The construction is deterministic: any two trees for the same input
/// yield the same code-length vector.
pub proof fn lemma_lengths_determined(lens1: Seq<u8>, lens2: Seq<u8>, input: Seq<u8>)
    requires
        lens_of_tree(lens1, input),
        lens_of_tree(lens2, input),
    ensures
        lens1 == lens2,
{
    let s1 = choose|nodes: Seq<Node>| #[trigger] lens_of_arena(nodes, lens1, input);
    let s2 = choose|nodes: Seq<Node>| #[trigger] lens_of_arena(nodes, lens2, input);
    let n = s1.len() as int;
    assert(s2.len() == n);
    assert forall|j: int| 0 <= j < n implies node_same_shape(#[trigger] s1[j], s2[j]) by {
        assert(node_same_shape(s1[j], spec_arena(input)[j]));
        assert(node_same_shape(s2[j], spec_arena(input)[j]));
    }
    assert forall|b: int| 0 <= b < 256 implies lens1[b] == lens2[b] by {
        if has_leaf(s1, b as u8) {
            let w = choose|w: int|
                0 <= w < s1.len() && node_is_leaf(#[trigger] s1[w]) && s1[w].symbol == Some(
                    b as u8,
                );
            assert(node_same_shape(s1[w], s2[w]));
            assert(node_is_leaf(s2[w]) && s2[w].symbol == Some(b as u8));
            assert(has_leaf(s2, b as u8));
            if n >= 2 {
                lemma_depths_determined(s1, s2, w);
                assert(lens1[b] == s1[w].depth.unwrap());
                assert(lens2[b] == s2[w].depth.unwrap());
            } else {
                assert(lens1[b] == 1 && lens2[b] == 1);
            }
        } else {
            if has_leaf(s2, b as u8) {
                let w = choose|w: int|
                    0 <= w < s2.len() && node_is_leaf(#[trigger] s2[w]) && s2[w].symbol == Some(
                        b as u8,
                    );
                assert(node_same_shape(s1[w], s2[w]));
                assert(node_is_leaf(s1[w]) && s1[w].symbol == Some(b as u8));
                assert(false);
            }
            assert(lens1[b] == 0 && lens2[b] == 0);
        }
    }
    assert(lens1 =~= lens2);
}

/// The arena: nodes in construction order, the root (if any) last, every
/// child at a strictly earlier position than its parent.
#[derive(Debug)]
pub struct HuffmanTree {
    pub nodes: Vec<Node>,
}

impl HuffmanTree {
    /// Structural well-formedness together with assigned depths: the root is
    /// at depth zero and every other node lies one level below some parent.
    pub open spec fn wf(self) -> bool {
        &&& arena_wf(self.nodes@)
        &&& covered(self.nodes@)
        &&& self.nodes@.len() > 0 ==> self.nodes@[self.nodes@.len() - 1].depth == Some(0u8)
        &&& forall|j: int| 0 <= j < self.nodes@.len() ==> (#[trigger] self.nodes@[j]).depth is Some
        &&& forall|j: int| 0 <= j < self.nodes@.len() - 1 ==> #[trigger] depth_linked(self.nodes@, j)
        &&& forall|j: int|
            0 <= j < self.nodes@.len() ==> (#[trigger] self.nodes@[j]).depth.unwrap()
                <= internal_count(self.nodes@, j + 1, self.nodes@.len() as int)
    }

    /// The tree's leaves are exactly the bytes occurring in `input`, each
    /// with its occurrence count as frequency.
    pub open spec fn matches_input(self, input: Seq<u8>) -> bool {
        &&& leaves_match(self.nodes@, input)
        &&& forall|b: u8| occurs(input, b) ==> has_leaf(self.nodes@, b)
    }

    /// Build the tree for a byte stream: seed one leaf per occurring byte,
    /// then repeatedly merge the two least entries of the queue, appending
    /// both to the arena, until the root remains and is appended last.
    #[verifier::rlimit(100)]
    pub fn from(bytes: &Vec<u8>) -> (t: HuffmanTree)
        ensures
            t.wf(),
            t.matches_input(bytes@),
            forall|b: u8| has_leaf(t.nodes@, b) ==> occurs(bytes@, b),
            t.nodes@.len() == 0 <==> bytes@.len() == 0,
            distinct_count(bytes@) >= 1 ==> internal_total(t.nodes@) == distinct_count(bytes@)
                - 1,
            distinct_count(bytes@) == 0 ==> internal_total(t.nodes@) == 0,
            internal_total(t.nodes@) <= 255,
            parents_unique(t.nodes@),
            leaf_syms_unique(t.nodes@),
            freq_linked(t.nodes@),
            t.nodes@.len() > 0 ==> t.nodes@[t.nodes@.len() - 1].freq == bytes@.len(),
            distinct_count(bytes@) >= 1 ==> t.nodes@.len() == 2 * distinct_count(bytes@) - 1,
            children_depths(t.nodes@),
            t.nodes@.len() == spec_arena(bytes@).len(),
            forall|j: int|
                0 <= j < t.nodes@.len() ==> node_same_shape(
                    #[trigger] t.nodes@[j],
                    spec_arena(bytes@)[j],
                ),
    {
        let ghost inp = bytes@;
        let total_len = bytes.len();
        proof {
            assert(inp.len() == total_len as int);
        }
        let freqs = build_freq_table(bytes);
        let mut q: Vec<Node> = Vec::new();
        let mut b: usize = 0;
        while b < 256
            invariant
                b <= 256,
                freqs@.len() == 256,
                forall|v: int| 0 <= v < 256 ==> freqs@[v] == count_byte(inp, v as u8),
                q@.len() == distinct_upto(inp, b as int),
                inp.len() <= usize::MAX,
                q@ == spec_seed(inp, b as int),
                queue_wf(q@, 0),
                leaves_match(q@, inp),
                forall|qi: int| 0 <= qi < q@.len() ==> node_is_leaf(#[trigger] q@[qi]),
                forall|qi: int|
                    0 <= qi < q@.len() ==> (#[trigger] q@[qi]).symbol.unwrap() < b,
                leaf_syms_unique(q@),
                forall|v: u8| v < b && occurs(inp, v) ==> has_leaf(q@, v),
                sum_freq(q@) == sum_counts(inp, b as int),
                internal_total(q@) == 0,
            decreases 256 - b,
        {
            let f = freqs[b];
            if f > 0 {
                let ghost q0 = q@;
                let n = Node::new(f, Some(b as u8), None, None);
                q.push(n);
                proof {
                    lemma_count_byte_le_len(inp, b as u8);
                    assert(f == count_byte(inp, b as u8) as u64);
                    assert(n == (Node {
                        freq: count_byte(inp, b as u8) as u64,
                        symbol: Some(b as u8),
                        left: None,
                        right: None,
                        depth: None,
                    }));
                    assert(spec_seed(inp, b + 1) == spec_seed(inp, b as int).push(n));
                    lemma_sum_freq_push(q0, n);
                    lemma_internal_total_push(q0, n);
                    assert forall|v: u8| v < b + 1 && occurs(inp, v) implies has_leaf(q@, v) by {
                        lemma_has_leaf_push(q0, n, v);
                    }
                    assert forall|i1: int, i2: int|
                        0 <= i1 < q@.len() && 0 <= i2 < q@.len() && i1 != i2 && node_is_leaf(
                            #[trigger] q@[i1],
                        ) && node_is_leaf(#[trigger] q@[i2]) implies q@[i1].symbol
                        != q@[i2].symbol by {
                        if i1 < q0.len() && i2 < q0.len() {
                            assert(q@[i1] == q0[i1] && q@[i2] == q0[i2]);
                        }
                    }
                }
            }
            b += 1;
        }
        let ghost d0 = q@.len() as int;
        proof {
            assert(d0 == distinct_count(inp));
            lemma_sum_counts_total(inp);
            lemma_distinct_upto_bound(inp, 256);
            if inp.len() > 0 {
                lemma_nonempty_has_distinct(inp);
            }
        }
        let mut nodes: Vec<Node> = Vec::new();
        proof {
            assert(nodes@ =~= Seq::<Node>::empty());
        }
        while q.len() > 1
            invariant
                q@.len() >= 1 || nodes@.len() == 0,
                nodes@.len() + 2 * q@.len() == 2 * d0,
                0 <= d0 <= 256,
                inp.len() <= usize::MAX,
                arena_wf(nodes@),
                forall|i: int| 0 <= i < nodes@.len() ==> (#[trigger] nodes@[i]).depth is None,
                queue_wf(q@, nodes@.len() as int),
                leaves_match(nodes@, inp),
                leaves_match(q@, inp),
                forall|j: int|
                    0 <= j < nodes@.len() ==> has_parent(nodes@, j) || queue_parent(q@, j),
                forall|v: u8| occurs(inp, v) ==> has_leaf(nodes@, v) || has_leaf(q@, v),
                sum_freq(q@) == inp.len(),
                internal_total(nodes@) + internal_total(q@) == d0 - q@.len(),
                parents_unique(nodes@),
                parents_unique(q@),
                parents_disjoint(nodes@, q@),
                leaf_syms_unique(nodes@),
                leaf_syms_unique(q@),
                leaf_syms_disjoint(nodes@, q@),
                freq_linked(nodes@),
                queue_freq_linked(q@, nodes@),
                spec_build(q@, nodes@) == spec_arena(inp),
            decreases q@.len(),
        {
            let ghost nodes0 = nodes@;
            let ghost q0 = q@;
            let m1 = min_index(&q);
            let l = q.remove(m1);
            proof {
                lemma_sum_freq_remove(q0, m1 as int);
                lemma_internal_total_remove(q0, m1 as int);
                lemma_sum_freq_nonneg(q@);
            }
            let ghost q1 = q@;
            let m2 = min_index(&q);
            let r = q.remove(m2);
            proof {
                lemma_sum_freq_remove(q1, m2 as int);
                lemma_internal_total_remove(q1, m2 as int);
                lemma_sum_freq_nonneg(q@);
                assert(l == q0[m1 as int]);
                assert(queue_node_wf(q0[m1 as int], nodes@.len() as int));
                assert(leaf_node_matches(q0[m1 as int], inp));
                assert(r == q1[m2 as int]);
                lemma_remove_index(q0, m1 as int, m2 as int);
                assert(queue_node_wf(r, nodes@.len() as int));
                assert(leaf_node_matches(r, inp));
                assert(l.freq + r.freq <= inp.len());
                assert(l.freq + r.freq <= u64::MAX);
            }
            let ghost q2 = q@;
            let l_idx = nodes.len();
            let p = Node::from(&l, l_idx, &r, l_idx + 1);
            nodes.push(l);
            nodes.push(r);
            q.push(p);
            proof {
                let ghost nn = nodes@;
                let ghost qn = q@;
                assert(nn == nodes0.push(l).push(r));
                assert(qn == q2.push(p));
                lemma_internal_total_push(nodes0, l);
                lemma_internal_total_push(nodes0.push(l), r);
                lemma_internal_total_push(q2, p);
                lemma_sum_freq_push(q2, p);
                // Every queue survivor keeps its shape and leaf facts.
                assert forall|qi: int| 0 <= qi < qn.len() implies queue_node_wf(
                    #[trigger] qn[qi],
                    nn.len() as int,
                ) && leaf_node_matches(qn[qi], inp) by {
                    if qi < qn.len() - 1 {
                        lemma_remove_index(q1, m2 as int, qi);
                        let wi = if qi < m2 {
                            qi
                        } else {
                            qi + 1
                        };
                        lemma_remove_index(q0, m1 as int, wi);
                    }
                }
                // The two merged nodes keep their facts in the arena.
                assert(nn[l_idx as int] == l && nn[l_idx + 1] == r);
                assert forall|i: int| 0 <= i < nn.len() implies node_shape_wf(nn, i)
                    && leaf_node_matches(#[trigger] nn[i], inp) && nn[i].depth is None by {
                    if i < nodes0.len() {
                        assert(nn[i] == nodes0[i]);
                        assert(node_shape_wf(nodes0, i));
                        assert(leaf_node_matches(nodes0[i], inp));
                    } else if i == l_idx {
                        assert(nn[i] == l);
                        assert(queue_node_wf(l, l_idx as int));
                    } else {
                        assert(nn[i] == r);
                        assert(queue_node_wf(r, l_idx as int));
                    }
                }
                // Cover: old arena nodes stay covered; the merged pair is
                // covered by the new parent in the queue.
                assert forall|j: int| 0 <= j < nn.len() implies has_parent(nn, j) || queue_parent(
                    qn,
                    j,
                ) by {
                    if j < nodes0.len() {
                        if has_parent(nodes0, j) {
                            lemma_has_parent_push(nodes0, l, j);
                            lemma_has_parent_push(nodes0.push(l), r, j);
                        } else {
                            lemma_queue_parent_remove(q0, m1 as int, j);
                            if is_child_of(q0, m1 as int, j) {
                                assert(is_child_of(nn, l_idx as int, j));
                                assert(has_parent(nn, j));
                            } else {
                                lemma_queue_parent_remove(q1, m2 as int, j);
                                if is_child_of(q1, m2 as int, j) {
                                    assert(is_child_of(nn, l_idx + 1, j));
                                    assert(has_parent(nn, j));
                                } else {
                                    lemma_queue_parent_push(q2, p, j);
                                }
                            }
                        }
                    } else {
                        assert(is_child_of(qn, qn.len() - 1, j));
                        assert(queue_parent(qn, j));
                    }
                }
                // Completeness: every occurring byte still has a leaf.
                assert forall|v: u8| occurs(inp, v) implies has_leaf(nn, v) || has_leaf(qn, v) by {
                    if has_leaf(nodes0, v) {
                        lemma_has_leaf_push(nodes0, l, v);
                        lemma_has_leaf_push(nodes0.push(l), r, v);
                    } else {
                        lemma_has_leaf_remove(q0, m1 as int, v);
                        if node_is_leaf(l) && l.symbol == Some(v) {
                            lemma_has_leaf_push(nodes0, l, v);
                            lemma_has_leaf_push(nodes0.push(l), r, v);
                        } else {
                            lemma_has_leaf_remove(q1, m2 as int, v);
                            if node_is_leaf(r) && r.symbol == Some(v) {
                                lemma_has_leaf_push(nodes0.push(l), r, v);
                            } else {
                                lemma_has_leaf_push(q2, p, v);
                            }
                        }
                    }
                }
                let o_r: int = if (m2 as int) < m1 as int {
                    m2 as int
                } else {
                    m2 as int + 1
                };
                assert(r == q0[o_r] && o_r != m1 as int && 0 <= o_r < q0.len());
                // Classify every child claim of the new arena and queue by
                // the node it came from.
                assert forall|k: int, j: int|
                    0 <= k < nn.len() && #[trigger] is_child_of(nn, k, j) implies ((k
                    < nodes0.len() && is_child_of(nodes0, k, j)) || (k == l_idx
                    && is_child_of(q0, m1 as int, j)) || (k == l_idx + 1 && is_child_of(
                    q0,
                    o_r,
                    j,
                ))) by {
                    if k < nodes0.len() {
                        assert(nn[k] == nodes0[k]);
                    } else if k == l_idx {
                        assert(nn[k] == q0[m1 as int]);
                    } else {
                        assert(nn[k] == q0[o_r]);
                    }
                }
                assert forall|qi: int, j: int|
                    0 <= qi < qn.len() && #[trigger] is_child_of(qn, qi, j) implies ((qi < qn.len()
                    - 1 && is_child_of(q0, survivor_origin(m1 as int, m2 as int, qi), j)
                    && survivor_origin(m1 as int, m2 as int, qi) != m1 as int && survivor_origin(
                    m1 as int,
                    m2 as int,
                    qi,
                ) != o_r && 0 <= survivor_origin(m1 as int, m2 as int, qi) < q0.len() && j
                    < nodes0.len()) || (qi == qn.len() - 1 && (j == l_idx as int || j == l_idx
                    + 1))) by {
                    if qi < qn.len() - 1 {
                        lemma_survivor_origin(q0, m1 as int, m2 as int, qi);
                        let w0 = survivor_origin(m1 as int, m2 as int, qi);
                        assert(qn[qi] == q0[w0]);
                        assert(queue_node_wf(q0[w0], nodes0.len() as int));
                    } else {
                        assert(qn[qi] == p);
                    }
                }
                // Parent uniqueness: merged children have exactly the new
                // parent; everything older keeps its single parent.
                assert forall|k1: int, k2: int, j: int|
                    0 <= k1 < nn.len() && 0 <= k2 < nn.len() && k1 != k2 implies !(
                #[trigger] is_child_of(nn, k1, j) && #[trigger] is_child_of(nn, k2, j)) by {}
                assert forall|qi1: int, qi2: int, j: int|
                    0 <= qi1 < qn.len() && 0 <= qi2 < qn.len() && qi1 != qi2 implies !(
                #[trigger] is_child_of(qn, qi1, j) && #[trigger] is_child_of(qn, qi2, j)) by {
                    if is_child_of(qn, qi1, j) && is_child_of(qn, qi2, j) {
                        if qi1 < qn.len() - 1 && qi2 < qn.len() - 1 {
                            assert(survivor_origin(m1 as int, m2 as int, qi1) != survivor_origin(
                                m1 as int,
                                m2 as int,
                                qi2,
                            ));
                        }
                    }
                }
                assert forall|k: int, qi: int, j: int|
                    0 <= k < nn.len() && 0 <= qi < qn.len() implies !(#[trigger] is_child_of(
                    nn,
                    k,
                    j,
                ) && #[trigger] is_child_of(qn, qi, j)) by {
                    if is_child_of(nn, k, j) && is_child_of(qn, qi, j) {
                        if k < nodes0.len() {
                            assert(node_shape_wf(nodes0, k));
                        }
                    }
                }
                // Leaf symbols stay pairwise distinct.
                assert forall|i1: int, i2: int|
                    0 <= i1 < nn.len() && 0 <= i2 < nn.len() && i1 != i2 && node_is_leaf(
                        #[trigger] nn[i1],
                    ) && node_is_leaf(#[trigger] nn[i2]) implies nn[i1].symbol != nn[i2].symbol by {
                    if i1 < nodes0.len() {
                        assert(nn[i1] == nodes0[i1]);
                    } else {
                        assert(nn[i1] == q0[if i1 == l_idx as int {
                            m1 as int
                        } else {
                            o_r
                        }]);
                    }
                    if i2 < nodes0.len() {
                        assert(nn[i2] == nodes0[i2]);
                    } else {
                        assert(nn[i2] == q0[if i2 == l_idx as int {
                            m1 as int
                        } else {
                            o_r
                        }]);
                    }
                }
                assert forall|i1: int, i2: int|
                    0 <= i1 < qn.len() && 0 <= i2 < qn.len() && i1 != i2 && node_is_leaf(
                        #[trigger] qn[i1],
                    ) && node_is_leaf(#[trigger] qn[i2]) implies qn[i1].symbol != qn[i2].symbol by {
                    if i1 < qn.len() - 1 && i2 < qn.len() - 1 {
                        lemma_survivor_origin(q0, m1 as int, m2 as int, i1);
                        lemma_survivor_origin(q0, m1 as int, m2 as int, i2);
                        assert(survivor_origin(m1 as int, m2 as int, i1) != survivor_origin(
                            m1 as int,
                            m2 as int,
                            i2,
                        ));
                    }
                }
                assert forall|i1: int, i2: int|
                    0 <= i1 < nn.len() && 0 <= i2 < qn.len() && node_is_leaf(#[trigger] nn[i1])
                        && node_is_leaf(#[trigger] qn[i2]) implies nn[i1].symbol
                    != qn[i2].symbol by {
                    if i2 < qn.len() - 1 {
                        lemma_survivor_origin(q0, m1 as int, m2 as int, i2);
                        if i1 < nodes0.len() {
                            assert(nn[i1] == nodes0[i1]);
                        } else {
                            assert(nn[i1] == q0[if i1 == l_idx as int {
                                m1 as int
                            } else {
                                o_r
                            }]);
                        }
                    } else {
                        assert(qn[i2] == p);
                    }
                }
                // Frequency sums: new parents add their children; old
                // equations read only untouched arena entries.
                assert forall|i: int|
                    0 <= i < nn.len() && (#[trigger] nn[i]).left is Some implies nn[i].freq == nn[
                    nn[i].left.unwrap() as int
                ].freq + nn[nn[i].right.unwrap() as int].freq by {
                    if i < nodes0.len() {
                        assert(nn[i] == nodes0[i]);
                        assert(node_shape_wf(nodes0, i));
                    } else if i == l_idx {
                        assert(nn[i] == q0[m1 as int]);
                        assert(queue_node_wf(q0[m1 as int], nodes0.len() as int));
                    } else {
                        assert(nn[i] == q0[o_r]);
                        assert(queue_node_wf(q0[o_r], nodes0.len() as int));
                    }
                }
                assert forall|qi: int|
                    0 <= qi < qn.len() && (#[trigger] qn[qi]).left is Some implies qn[qi].freq
                    == nn[qn[qi].left.unwrap() as int].freq + nn[
                    qn[qi].right.unwrap() as int
                ].freq by {
                    if qi < qn.len() - 1 {
                        lemma_survivor_origin(q0, m1 as int, m2 as int, qi);
                        let w0 = survivor_origin(m1 as int, m2 as int, qi);
                        assert(qn[qi] == q0[w0]);
                        assert(queue_node_wf(q0[w0], nodes0.len() as int));
                    } else {
                        assert(qn[qi] == p);
                        assert(nn[l_idx as int] == l && nn[l_idx + 1] == r);
                    }
                }
                lemma_build_step(q0, nodes0, m1 as int, m2 as int, l, r, p);
                assert(qn == q0.remove(m1 as int).remove(m2 as int).push(p));
                assert(spec_build(qn, nn) == spec_build(q0, nodes0));
            }
        }
        if q.len() == 1 {
            let ghost nodes0 = nodes@;
            let ghost q0 = q@;
            let last = q.remove(0);
            nodes.push(last);
            proof {
                let nn = nodes@;
                lemma_build_done(q0, nodes0);
                assert(nodes@ == spec_arena(inp));
                lemma_internal_total_push(nodes0, last);
                lemma_internal_total_remove(q0, 0);
                assert forall|i: int| 0 <= i < nn.len() implies node_shape_wf(nn, i)
                    && leaf_node_matches(#[trigger] nn[i], inp) && nn[i].depth is None by {
                    if i < nodes0.len() {
                        assert(nn[i] == nodes0[i]);
                        assert(node_shape_wf(nodes0, i));
                        assert(leaf_node_matches(nodes0[i], inp));
                    } else {
                        assert(nn[i] == last);
                        assert(last == q0[0]);
                        assert(queue_node_wf(q0[0], nodes0.len() as int));
                        assert(leaf_node_matches(q0[0], inp));
                    }
                }
                assert forall|j: int| 0 <= j < nn.len() - 1 implies #[trigger] has_parent(
                    nn,
                    j,
                ) by {
                    if has_parent(nodes0, j) {
                        lemma_has_parent_push(nodes0, last, j);
                    } else {
                        assert(queue_parent(q0, j));
                        let w = choose|w: int| 0 <= w < q0.len() && #[trigger] is_child_of(q0, w, j);
                        assert(w == 0);
                        assert(nn[nn.len() - 1] == last);
                        assert(is_child_of(nn, nn.len() - 1, j));
                    }
                }
                assert forall|v: u8| occurs(inp, v) implies has_leaf(nn, v) by {
                    if has_leaf(nodes0, v) {
                        lemma_has_leaf_push(nodes0, last, v);
                    } else {
                        lemma_has_leaf_remove(q0, 0, v);
                        lemma_has_leaf_push(nodes0, last, v);
                    }
                }
                // The appended root: single claims, distinct symbols, and the
                // whole input weight as its frequency.
                assert(sum_freq(q0) == inp.len() && q0.len() == 1);
                assert(q0.drop_last().len() == 0);
                assert(sum_freq(q0.drop_last()) == 0);
                assert(q0.last() == q0[0]);
                assert(sum_freq(q0) == q0[0].freq);
                assert(nn[nn.len() - 1].freq == inp.len());
                assert forall|k: int, j: int|
                    0 <= k < nn.len() && #[trigger] is_child_of(nn, k, j) implies ((k
                    < nodes0.len() && is_child_of(nodes0, k, j)) || (k == nn.len() - 1
                    && is_child_of(q0, 0, j))) by {
                    if k < nodes0.len() {
                        assert(nn[k] == nodes0[k]);
                    } else {
                        assert(nn[k] == q0[0]);
                    }
                }
                assert forall|k1: int, k2: int, j: int|
                    0 <= k1 < nn.len() && 0 <= k2 < nn.len() && k1 != k2 implies !(
                #[trigger] is_child_of(nn, k1, j) && #[trigger] is_child_of(nn, k2, j)) by {}
                assert forall|i1: int, i2: int|
                    0 <= i1 < nn.len() && 0 <= i2 < nn.len() && i1 != i2 && node_is_leaf(
                        #[trigger] nn[i1],
                    ) && node_is_leaf(#[trigger] nn[i2]) implies nn[i1].symbol != nn[i2].symbol by {
                    if i1 < nodes0.len() {
                        assert(nn[i1] == nodes0[i1]);
                    } else {
                        assert(nn[i1] == q0[0]);
                    }
                    if i2 < nodes0.len() {
                        assert(nn[i2] == nodes0[i2]);
                    } else {
                        assert(nn[i2] == q0[0]);
                    }
                }
                assert forall|i: int|
                    0 <= i < nn.len() && (#[trigger] nn[i]).left is Some implies nn[i].freq == nn[
                    nn[i].left.unwrap() as int
                ].freq + nn[nn[i].right.unwrap() as int].freq by {
                    if i < nodes0.len() {
                        assert(nn[i] == nodes0[i]);
                        assert(node_shape_wf(nodes0, i));
                    } else {
                        assert(nn[i] == q0[0]);
                        assert(queue_node_wf(q0[0], nodes0.len() as int));
                    }
                }
            }
        } else {
            proof {
                lemma_build_done(q@, nodes@);
                assert(nodes@ == spec_arena(inp));
            }
        }
        proof {
            assert(nodes@ == spec_arena(inp));
            assert forall|v: u8| has_leaf(nodes@, v) implies occurs(inp, v) by {
                let w = choose|w: int|
                    0 <= w < nodes@.len() && node_is_leaf(#[trigger] nodes@[w]) && nodes@[w].symbol
                        == Some(v);
                assert(leaf_node_matches(nodes@[w], inp));
            }
        }
        let mut tree = HuffmanTree { nodes };
        let ghost before = tree.nodes@;
        proof {
            if bytes@.len() == 0 {
                lemma_distinct_empty(inp, 256);
            }
            assert(parents_unique(before));
            assert(leaf_syms_unique(before));
            assert(freq_linked(before));
            assert(before.len() > 0 ==> before[before.len() - 1].freq == inp.len());
            assert(d0 >= 1 ==> before.len() == 2 * d0 - 1);
        }
        tree.set_depths();
        proof {
            let s1 = tree.nodes@;
            assert(s1.len() == before.len());
            if distinct_count(inp) == 0 {
                assert(s1.len() == 0);
                assert(internal_total(s1) == 0);
            }
            assert forall|i: int| 0 <= i < s1.len() implies leaf_node_matches(
                #[trigger] s1[i],
                inp,
            ) by {
                assert(node_same_shape(s1[i], before[i]));
                assert(leaf_node_matches(before[i], inp));
            }
            assert forall|v: u8| occurs(inp, v) implies has_leaf(s1, v) by {
                assert(has_leaf(before, v));
                let w = choose|w: int|
                    0 <= w < before.len() && node_is_leaf(#[trigger] before[w])
                        && before[w].symbol == Some(v);
                assert(node_same_shape(s1[w], before[w]));
                assert(node_is_leaf(s1[w]) && s1[w].symbol == Some(v));
            }
            assert forall|v: u8| has_leaf(s1, v) implies occurs(inp, v) by {
                let w = choose|w: int|
                    0 <= w < s1.len() && node_is_leaf(#[trigger] s1[w]) && s1[w].symbol == Some(
                        v,
                    );
                assert(node_same_shape(s1[w], before[w]));
                assert(node_is_leaf(before[w]) && before[w].symbol == Some(v));
                assert(leaf_node_matches(before[w], inp));
            }
            // Depth assignment touches no child, symbol or frequency field,
            // so the structural facts transfer to the finished arena.
            assert forall|k: int, j: int|
                0 <= k < s1.len() implies #[trigger] is_child_of(s1, k, j) == is_child_of(
                before,
                k,
                j,
            ) by {
                assert(node_same_shape(s1[k], before[k]));
            }
            assert forall|k1: int, k2: int, j: int|
                0 <= k1 < s1.len() && 0 <= k2 < s1.len() && k1 != k2 implies !(
            #[trigger] is_child_of(s1, k1, j) && #[trigger] is_child_of(s1, k2, j)) by {
                assert(is_child_of(s1, k1, j) == is_child_of(before, k1, j));
                assert(is_child_of(s1, k2, j) == is_child_of(before, k2, j));
            }
            assert forall|i1: int, i2: int|
                0 <= i1 < s1.len() && 0 <= i2 < s1.len() && i1 != i2 && node_is_leaf(
                    #[trigger] s1[i1],
                ) && node_is_leaf(#[trigger] s1[i2]) implies s1[i1].symbol != s1[i2].symbol by {
                assert(node_same_shape(s1[i1], before[i1]));
                assert(node_same_shape(s1[i2], before[i2]));
            }
            assert forall|i: int|
                0 <= i < s1.len() && (#[trigger] s1[i]).left is Some implies s1[i].freq == s1[
                s1[i].left.unwrap() as int
            ].freq + s1[s1[i].right.unwrap() as int].freq by {
                assert(node_same_shape(s1[i], before[i]));
                assert(arena_wf(before));
                assert(node_shape_wf(before, i));
                assert(node_same_shape(s1[before[i].left.unwrap() as int], before[
                    before[i].left.unwrap() as int
                ]));
                assert(node_same_shape(s1[before[i].right.unwrap() as int], before[
                    before[i].right.unwrap() as int
                ]));
            }
            if s1.len() > 0 {
                assert(node_same_shape(s1[s1.len() - 1], before[before.len() - 1]));
            }
            assert(before == spec_arena(inp));
            assert forall|j: int| 0 <= j < s1.len() implies node_same_shape(
                #[trigger] s1[j],
                spec_arena(inp)[j],
            ) by {
                assert(node_same_shape(s1[j], before[j]));
            }
        }
        tree
    }

    /// The 256-entry code length vector: entry `b` is the depth of the leaf
    /// carrying byte `b`, or zero when no such leaf exists. A lone leaf (one
    /// distinct symbol) is forced to length one so that it still receives a
    /// code.
    pub fn get_bitlengths(&self) -> (lens: Vec<u8>)
        requires
            self.wf(),
            leaf_syms_unique(self.nodes@),
        ensures
            lens@.len() == 256,
            forall|b: int| 0 <= b < 256 ==> ((lens@[b] > 0) <==> has_leaf(self.nodes@, b as u8)),
            forall|b: int|
                0 <= b < 256 ==> lens@[b] as nat <= internal_total(self.nodes@) || (
                internal_total(self.nodes@) == 0 && lens@[b] <= 1),
            forall|i: int|
                0 <= i < self.nodes@.len() && node_is_leaf(#[trigger] self.nodes@[i]) ==> lens@[
                    self.nodes@[i].symbol.unwrap() as int
                ] == (if self.nodes@.len() == 1 {
                    1u8
                } else {
                    self.nodes@[i].depth.unwrap()
                }),
            self.nodes@.len() >= 2 ==> sym_kraft(lens@, 256) == leaf_weight_sum(
                self.nodes@,
                self.nodes@.len() as int,
            ),
            self.nodes@.len() == 1 ==> sym_kraft(lens@, 256) == pow2(254),
    {
        let n = self.nodes.len();
        let mut lens: Vec<u8> = Vec::new();
        let mut k: usize = 0;
        while k < 256
            invariant
                k <= 256,
                lens@.len() == k,
                forall|b: int| 0 <= b < k ==> lens@[b] == 0,
            decreases 256 - k,
        {
            lens.push(0);
            k += 1;
        }
        if n == 1 {
            let nd = self.nodes[0];
            proof {
                assert(node_shape_wf(self.nodes@, 0));
                assert(self.nodes@.drop_last().len() == 0);
                assert(internal_total(self.nodes@.drop_last()) == 0);
                assert(self.nodes@.last() == self.nodes@[0]);
                assert(self.nodes@[0].left is None);
                assert(internal_total(self.nodes@) == 0);
            }
            match nd.symbol {
                Some(sym) => {
                    let ghost zeros = lens@;
                    lens[sym as usize] = 1;
                    proof {
                        lemma_sym_kraft_all_zero(zeros, 256);
                        lemma_sym_kraft_update(zeros, sym as int, 1, 256);
                        assert(lens@ == zeros.update(sym as int, 1u8));
                        assert(sym_kraft(lens@, 256) == pow2(254));
                        assert forall|b: int|
                            0 <= b < 256 implies ((lens@[b] > 0) <==> has_leaf(
                            self.nodes@,
                            b as u8,
                        )) by {
                            if b == sym as int {
                                assert(node_is_leaf(self.nodes@[0]));
                                assert(has_leaf(self.nodes@, b as u8));
                            } else {
                                if has_leaf(self.nodes@, b as u8) {
                                    let w = choose|w: int|
                                        0 <= w < self.nodes@.len() && node_is_leaf(
                                            #[trigger] self.nodes@[w],
                                        ) && self.nodes@[w].symbol == Some(b as u8);
                                    assert(w == 0);
                                }
                            }
                        }
                    }
                },
                None => {},
            }
            return lens;
        }
        proof {
            lemma_sym_kraft_all_zero(lens@, 256);
        }
        let mut i: usize = 0;
        while i < n
            invariant
                self.wf(),
                n == self.nodes@.len(),
                n != 1,
                i <= n,
                lens@.len() == 256,
                leaf_syms_unique(self.nodes@),
                forall|b: int|
                    0 <= b < 256 ==> ((lens@[b] > 0) <==> has_leaf(
                        self.nodes@.take(i as int),
                        b as u8,
                    )),
                forall|b: int|
                    0 <= b < 256 ==> lens@[b] as nat <= internal_total(self.nodes@),
                forall|t: int|
                    0 <= t < i && node_is_leaf(#[trigger] self.nodes@[t]) ==> lens@[
                        self.nodes@[t].symbol.unwrap() as int
                    ] == self.nodes@[t].depth.unwrap(),
                sym_kraft(lens@, 256) == leaf_weight_sum(self.nodes@, i as int),
            decreases n - i,
        {
            let ghost lens0 = lens@;
            let nd = self.nodes[i];
            match nd.symbol {
                Some(sym) => {
                    proof {
                        assert(node_shape_wf(self.nodes@, i as int));
                        assert(node_is_leaf(self.nodes@[i as int]));
                        if i == n - 1 {
                            lemma_root_internal(self.nodes@);
                            assert(false);
                        }
                        assert(depth_linked(self.nodes@, i as int));
                        let p = choose|p: int|
                            i < p < n && #[trigger] is_child_of(self.nodes@, p, i as int)
                                && self.nodes@[p].depth is Some && self.nodes@[i as int].depth
                                is Some && self.nodes@[i as int].depth.unwrap() == self.nodes@[
                                p
                            ].depth.unwrap() + 1;
                        assert(self.nodes@[i as int].depth.unwrap() >= 1);
                        lemma_internal_count_is_total(self.nodes@);
                        lemma_internal_count_split(self.nodes@, 0, i + 1, n as int);
                        // No earlier leaf shares this symbol, so its entry is
                        // still zero.
                        if has_leaf(self.nodes@.take(i as int), sym) {
                            let w = choose|w: int|
                                0 <= w < self.nodes@.take(i as int).len() && node_is_leaf(
                                    #[trigger] self.nodes@.take(i as int)[w],
                                ) && self.nodes@.take(i as int)[w].symbol == Some(sym);
                            assert(self.nodes@.take(i as int)[w] == self.nodes@[w]);
                            assert(false);
                        }
                        assert(lens@[sym as int] == 0);
                    }
                    let d = nd.depth.unwrap();
                    let ghost lens_pre = lens@;
                    lens[sym as usize] = d;
                    proof {
                        lemma_sym_kraft_update(lens_pre, sym as int, d, 256);
                        assert(lens@ == lens_pre.update(sym as int, d));
                        assert(sym_kraft(lens@, 256) == leaf_weight_sum(self.nodes@, i as int)
                            + pow2((255 - d) as nat));
                        assert forall|t: int|
                            0 <= t < i + 1 && node_is_leaf(#[trigger] self.nodes@[t])
                                implies lens@[self.nodes@[t].symbol.unwrap() as int]
                            == self.nodes@[t].depth.unwrap() by {
                            if t < i {
                                assert(node_is_leaf(self.nodes@[i as int]));
                                assert(0 <= t < self.nodes@.len() && 0 <= (i as int)
                                    < self.nodes@.len() && t != i as int && node_is_leaf(
                                    self.nodes@[t],
                                ) && node_is_leaf(self.nodes@[i as int]));
                                assert(self.nodes@[t].symbol != self.nodes@[i as int].symbol);
                                assert(node_shape_wf(self.nodes@, t));
                                assert(self.nodes@[t].symbol == Some(
                                    self.nodes@[t].symbol.unwrap(),
                                ));
                                assert(self.nodes@[t].symbol.unwrap() != sym);
                                assert(lens@[self.nodes@[t].symbol.unwrap() as int] == lens_pre[
                                    self.nodes@[t].symbol.unwrap() as int
                                ]);
                            }
                        }
                    }
                },
                None => {
                    proof {
                        assert(node_shape_wf(self.nodes@, i as int));
                        assert(!node_is_leaf(self.nodes@[i as int]));
                    }
                },
            }
            i += 1;
            proof {
                assert(leaf_weight_sum(self.nodes@, i as int) == leaf_weight_sum(
                    self.nodes@,
                    i - 1,
                ) + (if node_is_leaf(self.nodes@[i - 1]) {
                    pow2((255 - self.nodes@[i - 1].depth.unwrap()) as nat) as int
                } else {
                    0
                }));
            }
            proof {
                assert forall|b: int|
                    0 <= b < 256 implies ((lens@[b] > 0) <==> has_leaf(
                    self.nodes@.take(i as int),
                    b as u8,
                )) by {
                    lemma_has_leaf_take_step(self.nodes@, i - 1, b as u8);
                    if self.nodes@[i - 1].symbol == Some(b as u8) && node_is_leaf(
                        self.nodes@[i - 1],
                    ) {
                        assert(lens@[b] > 0);
                    } else {
                        assert(lens@[b] == lens0[b]);
                    }
                }
            }
        }
        proof {
            assert(self.nodes@.take(n as int) =~= self.nodes@);
        }
        lens
    }

    /// Assign every node its depth, the root at depth zero, walking the
    /// arena from the root downward; children always lie at earlier
    /// positions, so one reverse pass reaches every node.
    #[verifier::rlimit(100)]
    pub fn set_depths(&mut self)
        requires
            arena_wf(old(self).nodes@),
            covered(old(self).nodes@),
            parents_unique(old(self).nodes@),
            internal_total(old(self).nodes@) <= 255,
            forall|j: int|
                0 <= j < old(self).nodes@.len() ==> (#[trigger] old(self).nodes@[j]).depth
                    is None,
        ensures
            final(self).nodes@.len() == old(self).nodes@.len(),
            forall|j: int|
                0 <= j < old(self).nodes@.len() ==> node_same_shape(
                    #[trigger] final(self).nodes@[j],
                    old(self).nodes@[j],
                ),
            internal_total(final(self).nodes@) == internal_total(old(self).nodes@),
            final(self).wf(),
            children_depths(final(self).nodes@),
    {
        let n = self.nodes.len();
        let ghost orig = self.nodes@;
        if n == 0 {
            return ;
        }
        let mut depths: Vec<Option<u8>> = Vec::new();
        let mut k: usize = 0;
        while k < n
            invariant
                k <= n,
                depths@.len() == k,
                forall|j: int| 0 <= j < k ==> (#[trigger] depths@[j]) is None,
            decreases n - k,
        {
            depths.push(None);
            k += 1;
        }
        depths[n - 1] = Some(0);
        proof {
            assert(depth_pass_inv(orig, depths@, n as int));
        }
        let mut i: usize = n;
        while i > 0
            invariant
                self.nodes@ == orig,
                orig.len() == n,
                1 <= n,
                i <= n,
                arena_wf(orig),
                covered(orig),
                parents_unique(orig),
                internal_total(orig) <= 255,
                depth_pass_inv(orig, depths@, i as int),
            decreases i,
        {
            i -= 1;
            proof {
                lemma_pass_node_has_depth(orig, depths@, i as int);
            }
            let nd = self.nodes[i];
            match (nd.left, nd.right) {
                (Some(lc), Some(rc)) => {
                    proof {
                        lemma_internal_count_is_total(orig);
                        lemma_internal_count_split(orig, 0, i as int, i + 1);
                        lemma_internal_count_split(orig, 0, i + 1, n as int);
                        assert(internal_count(orig, i as int, i as int) == 0);
                        assert(internal_count(orig, i as int, i + 1) == 1);
                        assert(internal_count(orig, i + 1, n as int) <= 254);
                    }
                    let d = depths[i].unwrap();
                    let ghost d_before = depths@;
                    depths[lc] = Some(d + 1);
                    depths[rc] = Some(d + 1);
                    proof {
                        lemma_depth_pass_step(
                            orig,
                            d_before,
                            depths@,
                            lc as int,
                            rc as int,
                            i as int,
                            d,
                        );
                    }
                },
                _ => {
                    proof {
                        assert(node_shape_wf(orig, i as int));
                        lemma_depth_pass_skip(orig, depths@, i as int);
                    }
                },
            }
        }
        proof {
            // With the pass complete every node has a depth: the root was
            // seeded, and every other node is some processed parent's child.
            assert forall|j: int| 0 <= j < n implies (#[trigger] depths@[j]) is Some by {
                if j < n - 1 {
                    assert(has_parent(orig, j));
                    let p = choose|p: int| j < p < n && #[trigger] is_child_of(orig, p, j);
                    assert(node_shape_wf(orig, p));
                    assert(orig[p].left is Some);
                }
            }
        }
        let mut w: usize = 0;
        while w < n
            invariant
                self.nodes@.len() == n,
                orig.len() == n,
                1 <= n,
                w <= n,
                depths@.len() == n,
                arena_wf(self.nodes@),
                covered(self.nodes@),
                internal_total(self.nodes@) == internal_total(orig),
                forall|t: int| 0 <= t < n ==> (#[trigger] depths@[t]) is Some,
                forall|t: int|
                    0 <= t < n ==> node_same_shape(#[trigger] self.nodes@[t], orig[t]),
                forall|t: int| w <= t < n ==> (#[trigger] self.nodes@[t]) == orig[t],
                forall|t: int| 0 <= t < w ==> (#[trigger] self.nodes@[t]).depth == depths@[t],
                depths@[n - 1] == Some(0u8),
                forall|j: int|
                    0 <= j < n - 1 ==> depth_assign_linked(orig, depths@, j, 0),
                forall|p: int|
                    0 <= p < n && (#[trigger] orig[p]).left is Some ==> depths@[
                        orig[p].left.unwrap() as int
                    ] == Some((depths@[p].unwrap() + 1) as u8) && depths@[
                        orig[p].right.unwrap() as int
                    ] == Some((depths@[p].unwrap() + 1) as u8),
                forall|j: int|
                    0 <= j < n ==> (#[trigger] depths@[j]).unwrap() <= internal_count(
                        orig,
                        j + 1,
                        n as int,
                    ),
                forall|lo: int|
                    0 <= lo <= n ==> #[trigger] internal_count(self.nodes@, lo, n as int)
                        == internal_count(orig, lo, n as int),
            decreases n - w,
        {
            let dv = match depths[w] {
                Some(v) => v,
                None => 0,
            };
            let ghost s_before = self.nodes@;
            set_node_depth(&mut self.nodes, w, dv);
            proof {
                assert(self.nodes@ =~= s_before.update(w as int, self.nodes@[w as int]));
                assert forall|lo: int|
                    0 <= lo <= n implies #[trigger] internal_count(self.nodes@, lo, n as int)
                    == internal_count(orig, lo, n as int) by {
                    lemma_internal_count_update(
                        s_before,
                        w as int,
                        self.nodes@[w as int],
                        lo,
                        n as int,
                    );
                }
                lemma_internal_count_is_total(self.nodes@);
                lemma_internal_count_is_total(orig);
            }
            w += 1;
        }
        proof {
            let s = self.nodes@;
            assert forall|j: int| 0 <= j < n - 1 implies #[trigger] depth_linked(s, j) by {
                assert(depth_assign_linked(orig, depths@, j, 0));
                let p = choose|p: int|
                    j < p < n && 0 <= p && #[trigger] is_child_of(orig, p, j) && depths@[p]
                        is Some && depths@[j] is Some && depths@[j].unwrap() == depths@[
                        p
                    ].unwrap() + 1;
                assert(node_same_shape(s[p], orig[p]));
                assert(is_child_of(s, p, j));
                assert(s[p].depth == depths@[p]);
                assert(s[j].depth == depths@[j]);
                assert(depth_linked(s, j));
            }
            assert forall|p: int|
                0 <= p < s.len() && (#[trigger] s[p]).left is Some implies s[
                s[p].left.unwrap() as int
            ].depth == Some((s[p].depth.unwrap() + 1) as u8) && s[
                s[p].right.unwrap() as int
            ].depth == Some((s[p].depth.unwrap() + 1) as u8) by {
                assert(node_same_shape(s[p], orig[p]));
                assert(node_shape_wf(orig, p));
                assert(s[orig[p].left.unwrap() as int].depth == depths@[
                    orig[p].left.unwrap() as int
                ]);
                assert(s[orig[p].right.unwrap() as int].depth == depths@[
                    orig[p].right.unwrap() as int
                ]);
                assert(s[p].depth == depths@[p]);
            }
            lemma_internal_count_is_total(s);
            lemma_internal_count_is_total(orig);
        }
    }
}

} // verus!
