use vstd::prelude::*;

verus! {

/// Strict lexicographic order on byte strings, the order of `Vec<u8>` and `str`.
pub open spec fn lex_lt(a: Seq<u8>, b: Seq<u8>) -> bool
    decreases a.len(),
{
    if a.len() == 0 {
        b.len() > 0
    } else if b.len() == 0 {
        false
    } else if a[0] != b[0] {
        a[0] < b[0]
    } else {
        lex_lt(a.drop_first(), b.drop_first())
    }
}

/// Every key is at most each key that follows it.
pub open spec fn sorted_keys(keys: Seq<Seq<u8>>) -> bool {
    forall|i: int, j: int| 0 <= i < j < keys.len() ==> !lex_lt(#[trigger] keys[j], #[trigger] keys[i])
}

/// A trie node: the range `[s, e)` of the sorted keys that pass through it,
/// and its depth `col`.
pub type Node = (int, int, int);

/// The first key of `[s, e)` that goes on past depth `col`.
pub open spec fn skip_ended(keys: Seq<Seq<u8>>, col: int, s: int, e: int) -> int
    decreases e - s,
{
    if s < e && keys[s].len() == col {
        skip_ended(keys, col, s + 1, e)
    } else {
        s
    }
}

/// Whether a key ends exactly at this node.
pub open spec fn is_leaf(keys: Seq<Seq<u8>>, n: Node) -> bool {
    skip_ended(keys, n.2, n.0, n.1) > n.0
}

/// Maximal runs of `[s, e)` whose keys agree on the byte at `col`.
pub open spec fn runs(keys: Seq<Seq<u8>>, col: int, s: int, e: int) -> Seq<(int, int)>
    decreases e - s,
{
    if e <= s {
        seq![]
    } else {
        let g = runs(keys, col, s, e - 1);
        if e - 1 > s && keys[e - 1][col] == keys[e - 2][col] {
            g.update(g.len() - 1, (g.last().0, e))
        } else {
            g.push((e - 1, e))
        }
    }
}

pub open spec fn node_runs(keys: Seq<Seq<u8>>, n: Node) -> Seq<(int, int)> {
    runs(keys, n.2, skip_ended(keys, n.2, n.0, n.1), n.1)
}

/// The children of a node, in order of their branching byte.
pub open spec fn children(keys: Seq<Seq<u8>>, n: Node) -> Seq<Node> {
    node_runs(keys, n).map_values(|g: (int, int)| (g.0, g.1, n.2 + 1))
}

/// The branching bytes of a node's children.
pub open spec fn child_labels(keys: Seq<Seq<u8>>, n: Node) -> Seq<u8> {
    node_runs(keys, n).map_values(|g: (int, int)| keys[g.0][n.2])
}

/// One 0-bit per child, closed by a 1-bit.
pub open spec fn child_bits(keys: Seq<Seq<u8>>, n: Node) -> Seq<bool> {
    Seq::new(node_runs(keys, n).len(), |k: int| false).push(true)
}

pub open spec fn root(keys: Seq<Seq<u8>>) -> Node {
    (0, keys.len() as int, 0)
}

/// The work queue after `i` nodes were taken from it in first-in first-out
/// order, each appending its children.
pub open spec fn level_queue(keys: Seq<Seq<u8>>, i: nat) -> Seq<Node>
    decreases i,
{
    if i == 0 {
        seq![root(keys)]
    } else {
        let q = level_queue(keys, (i - 1) as nat);
        if i - 1 < q.len() {
            q + children(keys, q[i - 1])
        } else {
            q
        }
    }
}

/// Sum of `len - col` over the keys of `[s, e)`.
pub open spec fn psum(keys: Seq<Seq<u8>>, col: int, s: int, e: int) -> int
    decreases e - s,
{
    if e <= s {
        0
    } else {
        psum(keys, col, s, e - 1) + keys[e - 1].len() - col
    }
}

pub open spec fn total_len(keys: Seq<Seq<u8>>) -> int {
    psum(keys, 0, 0, keys.len() as int)
}

/// All trie nodes of the keys in level order.
pub open spec fn trie_nodes(keys: Seq<Seq<u8>>) -> Seq<Node> {
    level_queue(keys, (2 * total_len(keys) + 1) as nat)
}

pub open spec fn leaf_bits(keys: Seq<Seq<u8>>) -> Seq<bool> {
    trie_nodes(keys).map_values(|n: Node| is_leaf(keys, n))
}

pub open spec fn bitmap_bits(keys: Seq<Seq<u8>>) -> Seq<bool> {
    trie_nodes(keys).map_values(|n: Node| child_bits(keys, n)).flatten()
}

pub open spec fn label_bytes(keys: Seq<Seq<u8>>) -> Seq<u8> {
    trie_nodes(keys).map_values(|n: Node| child_labels(keys, n)).flatten()
}

/// A node whose keys all reach depth `col` and agree up to it.
pub open spec fn valid_node(keys: Seq<Seq<u8>>, n: Node) -> bool {
    &&& 0 <= n.0 < n.1 <= keys.len()
    &&& 0 <= n.2
    &&& forall|k: int|
        n.0 <= k < n.1 ==> (#[trigger] keys[k]).len() >= n.2 && keys[k].subrange(0, n.2)
            == keys[n.0].subrange(0, n.2)
}

pub proof fn lemma_proper_prefix_lt(a: Seq<u8>, b: Seq<u8>)
    requires
        a.len() < b.len(),
        b.subrange(0, a.len() as int) == a,
    ensures
        lex_lt(a, b),
    decreases a.len(),
{
    if a.len() > 0 {
        assert(a[0] == b[0]);
        assert(b.drop_first().subrange(0, a.drop_first().len() as int) =~= a.drop_first());
        lemma_proper_prefix_lt(a.drop_first(), b.drop_first());
    }
}

pub proof fn lemma_skip_bounds(keys: Seq<Seq<u8>>, col: int, s: int, e: int)
    requires
        s <= e,
    ensures
        s <= skip_ended(keys, col, s, e) <= e,
        forall|k: int| s <= k < skip_ended(keys, col, s, e) ==> (#[trigger] keys[k]).len() == col,
        skip_ended(keys, col, s, e) < e ==> keys[skip_ended(keys, col, s, e)].len() != col,
    decreases e - s,
{
    if s < e && keys[s].len() == col {
        lemma_skip_bounds(keys, col, s + 1, e);
    }
}

/// Past the keys that end at a valid node, no key of the node ends there.
pub proof fn lemma_skip_rest(keys: Seq<Seq<u8>>, n: Node)
    requires
        sorted_keys(keys),
        valid_node(keys, n),
    ensures
        forall|k: int|
            skip_ended(keys, n.2, n.0, n.1) <= k < n.1 ==> (#[trigger] keys[k]).len() > n.2,
{
    let col = n.2;
    let s = skip_ended(keys, col, n.0, n.1);
    lemma_skip_bounds(keys, col, n.0, n.1);
    let p = keys[n.0].subrange(0, col);
    assert forall|k: int| s <= k < n.1 implies (#[trigger] keys[k]).len() > col by {
        if keys[k].len() == col {
            assert(keys[k] =~= keys[k].subrange(0, col));
            if k > s {
                assert(keys[s].len() > col);
                lemma_proper_prefix_lt(p, keys[s]);
                assert(keys[s].subrange(0, col) == p);
                assert(!lex_lt(keys[k], keys[s]));
            }
        }
    }
}

pub proof fn lemma_runs_len(keys: Seq<Seq<u8>>, col: int, s: int, e: int)
    requires
        s <= e,
    ensures
        runs(keys, col, s, e).len() <= e - s,
        e > s ==> runs(keys, col, s, e).len() > 0,
    decreases e - s,
{
    if e > s {
        lemma_runs_len(keys, col, s, e - 1);
    }
}

pub proof fn lemma_psum_split(keys: Seq<Seq<u8>>, col: int, a: int, b: int, c: int)
    requires
        a <= b <= c,
    ensures
        psum(keys, col, a, c) == psum(keys, col, a, b) + psum(keys, col, b, c),
    decreases c - b,
{
    if c > b {
        lemma_psum_split(keys, col, a, b, c - 1);
    }
}

pub proof fn lemma_psum_shift(keys: Seq<Seq<u8>>, col: int, a: int, b: int)
    requires
        a <= b,
    ensures
        psum(keys, col + 1, a, b) == psum(keys, col, a, b) - (b - a),
    decreases b - a,
{
    if b > a {
        lemma_psum_shift(keys, col, a, b - 1);
    }
}

pub proof fn lemma_psum_zero(keys: Seq<Seq<u8>>, col: int, a: int, b: int)
    requires
        a <= b,
        forall|k: int| a <= k < b ==> (#[trigger] keys[k]).len() == col,
    ensures
        psum(keys, col, a, b) == 0,
    decreases b - a,
{
    if b > a {
        lemma_psum_zero(keys, col, a, b - 1);
    }
}

pub proof fn lemma_psum_nonneg(keys: Seq<Seq<u8>>, col: int, a: int, b: int)
    requires
        a <= b,
        forall|k: int| a <= k < b ==> (#[trigger] keys[k]).len() >= col,
    ensures
        psum(keys, col, a, b) >= 0,
    decreases b - a,
{
    if b > a {
        lemma_psum_nonneg(keys, col, a, b - 1);
    }
}

/// Potential of the queue entries `[a, b)`.
pub open spec fn qsum(keys: Seq<Seq<u8>>, q: Seq<Node>, a: int, b: int) -> int
    decreases b - a,
{
    if b <= a {
        0
    } else {
        qsum(keys, q, a, b - 1) + psum(keys, q[b - 1].2, q[b - 1].0, q[b - 1].1)
    }
}

pub proof fn lemma_qsum_prefix(keys: Seq<Seq<u8>>, q: Seq<Node>, r: Seq<Node>, a: int, b: int)
    requires
        0 <= a <= b <= q.len(),
        b <= r.len(),
        forall|t: int| a <= t < b ==> q[t] == r[t],
    ensures
        qsum(keys, q, a, b) == qsum(keys, r, a, b),
    decreases b - a,
{
    if b > a {
        lemma_qsum_prefix(keys, q, r, a, b - 1);
    }
}

pub proof fn lemma_qsum_front(keys: Seq<Seq<u8>>, q: Seq<Node>, a: int, b: int)
    requires
        a < b,
    ensures
        qsum(keys, q, a, b) == psum(keys, q[a].2, q[a].0, q[a].1) + qsum(keys, q, a + 1, b),
    decreases b - a,
{
    if b > a + 1 {
        lemma_qsum_front(keys, q, a, b - 1);
    } else {
        assert(qsum(keys, q, a, a) == 0);
        assert(qsum(keys, q, a + 1, a + 1) == 0);
    }
}

pub proof fn lemma_qsum_nonneg(keys: Seq<Seq<u8>>, q: Seq<Node>, a: int, b: int)
    requires
        forall|t: int| a <= t < b ==> valid_node(keys, #[trigger] q[t]),
    ensures
        qsum(keys, q, a, b) >= 0,
    decreases b - a,
{
    if b > a {
        lemma_qsum_nonneg(keys, q, a, b - 1);
        let n = q[b - 1];
        assert(valid_node(keys, n));
        lemma_psum_nonneg(keys, n.2, n.0, n.1);
    }
}

/// Once the queue has been drained, it stays as it is.
pub proof fn lemma_level_queue_stable(keys: Seq<Seq<u8>>, i: nat, j: nat)
    requires
        i <= j,
        level_queue(keys, i).len() == i,
    ensures
        level_queue(keys, j) == level_queue(keys, i),
    decreases j - i,
{
    if j > i {
        lemma_level_queue_stable(keys, i, (j - 1) as nat);
    }
}

} // verus!
