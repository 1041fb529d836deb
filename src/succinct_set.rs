use vstd::prelude::*;

use crate::keys::{domain_suffix_key, exact_domain_key, exact_key, suffix_key};
use crate::varint::{push_varint, varint_bytes};
use crate::order::{lemma_lex_le_total, lex_le};
use crate::trie::{
    bitmap_bits, children, lex_lt, child_bits, child_labels, is_leaf, label_bytes, leaf_bits, lemma_level_queue_stable,
    lemma_psum_shift, lemma_psum_split, lemma_psum_zero, lemma_qsum_front, lemma_qsum_nonneg,
    lemma_qsum_prefix, lemma_runs_len, lemma_skip_bounds, lemma_skip_rest, level_queue, node_runs, psum,
    qsum, root, runs, skip_ended, sorted_keys, total_len, trie_nodes, valid_node, Node,
};

verus! {

broadcast use vstd::seq_lib::group_seq_properties;

/// Whether bit `k` of a bit sequence is set; bits past the end read as 0.
pub open spec fn bit_at(bits: Seq<bool>, k: int) -> bool {
    0 <= k < bits.len() && bits[k]
}

/// Word `w` of the packing, with only its low `b` bits filled in.
pub open spec fn word_upto(bits: Seq<bool>, w: int, b: nat) -> u64
    decreases b,
{
    if b == 0 {
        0
    } else {
        let prev = word_upto(bits, w, (b - 1) as nat);
        if bit_at(bits, 64 * w + b - 1) {
            prev | (1u64 << ((b - 1) as u64))
        } else {
            prev
        }
    }
}

/// Bits packed low to high into as many 64-bit words as they need.
pub open spec fn pack_bits(bits: Seq<bool>) -> Seq<u64> {
    Seq::new(((bits.len() + 63) / 64) as nat, |w: int| word_upto(bits, w, 64))
}

pub open spec fn key_view(keys: Seq<Vec<u8>>) -> Seq<Seq<u8>> {
    keys.map_values(|k: Vec<u8>| k@)
}

pub open spec fn queue_view(q: Seq<(usize, usize, usize)>) -> Seq<Node> {
    q.map_values(|t: (usize, usize, usize)| (t.0 as int, t.1 as int, t.2 as int))
}

pub open spec fn strings_view(v: Seq<String>) -> Seq<Seq<char>> {
    v.map_values(|s: String| s@)
}

/// The keys of the trie, unsorted: each suffix under its mark, then each
/// exact domain, all reversed.
pub open spec fn key_list(domains: Seq<Seq<char>>, suffixes: Seq<Seq<char>>) -> Seq<Seq<u8>> {
    suffixes.map_values(|s: Seq<char>| suffix_key(s)) + domains.map_values(|s: Seq<char>| exact_key(s))
}

/// The keys of the trie in lexicographic order.
pub open spec fn matcher_keys(domains: Seq<Seq<char>>, suffixes: Seq<Seq<char>>) -> Seq<Seq<u8>> {
    key_list(domains, suffixes).sort_by(|a: Seq<u8>, b: Seq<u8>| lex_le(a, b))
}

/// Relies on `slice::sort`: it orders by `Ord`, which for `Vec<u8>` is the
/// lexicographic order, and it only permutes the elements.
#[verifier::external_body]
fn sort_byte_strings(v: &mut Vec<Vec<u8>>)
    ensures
        sorted_keys(key_view(final(v)@)),
        key_view(final(v)@).to_multiset() == key_view(old(v)@).to_multiset(),
{
    v.sort();
}

/// Packs a bit sequence into 64-bit words.
fn pack(bits: &Vec<bool>) -> (r: Vec<u64>)
    ensures
        r@ == pack_bits(bits@),
{
    let n = bits.len();
    let nw: usize = n / 64 + if n % 64 == 0 { 0 } else { 1 };
    assert(nw == (n + 63) / 64);
    let mut r: Vec<u64> = Vec::new();
    let mut w: usize = 0;
    while w < nw
        invariant
            n == bits@.len(),
            nw == (n + 63) / 64,
            w <= nw,
            r@.len() == w,
            forall|x: int| 0 <= x < w ==> r@[x] == word_upto(bits@, x, 64),
        decreases nw - w,
    {
        let base: usize = w * 64;
        let mut word: u64 = 0;
        let mut b: usize = 0;
        while b < 64
            invariant
                n == bits@.len(),
                base == w * 64,
                base < n,
                b <= 64,
                word == word_upto(bits@, w as int, b as nat),
            decreases 64 - b,
        {
            if b < n - base && bits[base + b] {
                word = word | (1u64 << (b as u64));
            }
            b += 1;
        }
        r.push(word);
        w += 1;
    }
    assert(r@ =~= pack_bits(bits@));
    r
}

/// A trie over byte strings in succinct form: a leaf bit per node, a bitmap
/// with one 0-bit per edge and a 1-bit closing the children of each node,
/// and the edge labels, all in level order.
pub struct SuccinctSet {
    leaves: Vec<u64>,
    label_bitmap: Vec<u64>,
    labels: Vec<u8>,
}

/// The three arrays of the succinct trie over sorted keys.
pub open spec fn trie_arrays(keys: Seq<Seq<u8>>) -> (Seq<u64>, Seq<u64>, Seq<u8>) {
    (pack_bits(leaf_bits(keys)), pack_bits(bitmap_bits(keys)), label_bytes(keys))
}

/// A word as eight bytes, most significant first.
pub open spec fn u64_be(w: u64) -> Seq<u8> {
    seq![
        (w >> 56u64) as u8,
        (w >> 48u64) as u8,
        (w >> 40u64) as u8,
        (w >> 32u64) as u8,
        (w >> 24u64) as u8,
        (w >> 16u64) as u8,
        (w >> 8u64) as u8,
        w as u8,
    ]
}

pub open spec fn words_be(ws: Seq<u64>) -> Seq<u8> {
    ws.map_values(|w: u64| u64_be(w)).flatten()
}

/// The serialized form of a succinct trie: a reserved 0 byte, then each of
/// the three arrays as its element count followed by its elements.
pub open spec fn set_bytes(v: (Seq<u64>, Seq<u64>, Seq<u8>)) -> Seq<u8> {
    seq![0u8] + varint_bytes(v.0.len()) + words_be(v.0) + varint_bytes(v.1.len()) + words_be(v.1)
        + varint_bytes(v.2.len()) + v.2
}

/// Appends each word as eight big-endian bytes.
fn push_words(out: &mut Vec<u8>, ws: &Vec<u64>)
    ensures
        final(out)@ == old(out)@ + words_be(ws@),
{
    let ghost start = out@;
    let mut i: usize = 0;
    while i < ws.len()
        invariant
            i <= ws@.len(),
            out@ == start + words_be(ws@.take(i as int)),
        decreases ws@.len() - i,
    {
        let w = ws[i];
        out.push((w >> 56u64) as u8);
        out.push((w >> 48u64) as u8);
        out.push((w >> 40u64) as u8);
        out.push((w >> 32u64) as u8);
        out.push((w >> 24u64) as u8);
        out.push((w >> 16u64) as u8);
        out.push((w >> 8u64) as u8);
        out.push(w as u8);
        proof {
            let f = |w: u64| u64_be(w);
            assert(ws@.take(i + 1).map_values(f) =~= ws@.take(i as int).map_values(f).push(u64_be(w)));
            ws@.take(i as int).map_values(f).lemma_flatten_push(u64_be(w));
        }
        assert(out@ =~= start + words_be(ws@.take(i + 1)));
        i += 1;
    }
    assert(ws@.take(ws@.len() as int) =~= ws@);
}

impl View for SuccinctSet {
    type V = (Seq<u64>, Seq<u64>, Seq<u8>);

    closed spec fn view(&self) -> (Seq<u64>, Seq<u64>, Seq<u8>) {
        (self.leaves@, self.label_bitmap@, self.labels@)
    }
}

impl SuccinctSet {
    /// The trie of exact domains and domain suffixes. At least one of the two
    /// must be non-empty.
    pub fn matcher(domains: &Vec<String>, domain_suffix: &Vec<String>) -> (r: SuccinctSet)
        requires
            domains@.len() + domain_suffix@.len() > 0,
        ensures
            r@ == trie_arrays(matcher_keys(strings_view(domains@), strings_view(domain_suffix@))),
    {
        let ghost dv = strings_view(domains@);
        let ghost sv = strings_view(domain_suffix@);
        let mut list: Vec<Vec<u8>> = Vec::new();
        let mut k: usize = 0;
        while k < domain_suffix.len()
            invariant
                sv == strings_view(domain_suffix@),
                k <= domain_suffix@.len(),
                key_view(list@) == sv.take(k as int).map_values(|s: Seq<char>| suffix_key(s)),
            decreases domain_suffix@.len() - k,
        {
            let key = domain_suffix_key(domain_suffix[k].as_str());
            assert(sv[k as int] == domain_suffix@[k as int]@);
            let ghost before = key_view(list@);
            list.push(key);
            assert(key_view(list@) =~= before.push(key@));
            assert(sv.take(k + 1).map_values(|s: Seq<char>| suffix_key(s)) =~= sv.take(k as int).map_values(
                |s: Seq<char>| suffix_key(s),
            ).push(suffix_key(sv[k as int])));
            assert(key_view(list@) =~= sv.take(k + 1).map_values(|s: Seq<char>| suffix_key(s)));
            k += 1;
        }
        let mut k: usize = 0;
        while k < domains.len()
            invariant
                sv == strings_view(domain_suffix@),
                dv == strings_view(domains@),
                k <= domains@.len(),
                key_view(list@) == sv.map_values(|s: Seq<char>| suffix_key(s)) + dv.take(k as int).map_values(
                    |s: Seq<char>| exact_key(s),
                ),
            decreases domains@.len() - k,
        {
            let key = exact_domain_key(domains[k].as_str());
            assert(dv[k as int] == domains@[k as int]@);
            let ghost before = key_view(list@);
            list.push(key);
            assert(key_view(list@) =~= before.push(key@));
            assert(dv.take(k + 1).map_values(|s: Seq<char>| exact_key(s)) =~= dv.take(k as int).map_values(
                |s: Seq<char>| exact_key(s),
            ).push(exact_key(dv[k as int])));
            assert(key_view(list@) =~= sv.map_values(|s: Seq<char>| suffix_key(s)) + dv.take(k + 1).map_values(
                |s: Seq<char>| exact_key(s),
            ));
            k += 1;
        }
        let ghost unsorted = key_view(list@);
        proof {
            assert(sv.take(sv.len() as int) =~= sv);
            assert(dv.take(dv.len() as int) =~= dv);
            assert(unsorted =~= key_list(dv, sv));
        }
        sort_byte_strings(&mut list);
        proof {
            let le = |a: Seq<u8>, b: Seq<u8>| lex_le(a, b);
            let sorted = key_view(list@);
            lemma_lex_le_total();
            unsorted.lemma_sort_by_ensures(le);
            assert(vstd::relations::sorted_by(sorted, le)) by {
                assert forall|i: int, j: int| 0 <= i < j < sorted.len() implies #[trigger] le(sorted[i], sorted[j]) by {
                    assert(!lex_lt(sorted[j], sorted[i]));
                }
            }
            vstd::seq_lib::lemma_sorted_unique(sorted, unsorted.sort_by(le), le);
            assert(sorted == matcher_keys(dv, sv));
            sorted.to_multiset_ensures();
            unsorted.to_multiset_ensures();
        }
        Self::from_sorted(&list)
    }

    /// Appends the serialized trie to `writer`.
    pub fn write(&self, writer: &mut Vec<u8>)
        ensures
            final(writer)@ == old(writer)@ + set_bytes(self@),
    {
        let ghost start = writer@;
        writer.push(0u8);
        push_varint(writer, self.leaves.len());
        push_words(writer, &self.leaves);
        push_varint(writer, self.label_bitmap.len());
        push_words(writer, &self.label_bitmap);
        push_varint(writer, self.labels.len());
        let mut i: usize = 0;
        let ghost mid = writer@;
        while i < self.labels.len()
            invariant
                i <= self.labels@.len(),
                writer@ == mid + self.labels@.take(i as int),
            decreases self.labels@.len() - i,
        {
            writer.push(self.labels[i]);
            assert(writer@ =~= mid + self.labels@.take(i + 1));
            i += 1;
        }
        assert(self.labels@.take(self.labels@.len() as int) =~= self.labels@);
        assert(writer@ =~= start + set_bytes(self@));
    }

    /// The leaf bits, packed into words.
    pub fn leaves(&self) -> (r: &Vec<u64>)
        ensures
            r@ == self@.0,
    {
        &self.leaves
    }

    /// The children-group bitmap, packed into words.
    pub fn label_bitmap(&self) -> (r: &Vec<u64>)
        ensures
            r@ == self@.1,
    {
        &self.label_bitmap
    }

    /// The edge labels.
    pub fn labels(&self) -> (r: &Vec<u8>)
        ensures
            r@ == self@.2,
    {
        &self.labels
    }

    /// Builds the trie of a non-empty list of sorted keys.
    pub fn from_sorted(keys: &Vec<Vec<u8>>) -> (r: SuccinctSet)
        requires
            keys@.len() > 0,
            sorted_keys(key_view(keys@)),
        ensures
            r@ == trie_arrays(key_view(keys@)),
    {
        let ghost kv = key_view(keys@);
        let mut leaf_list: Vec<bool> = Vec::new();
        let mut bit_list: Vec<bool> = Vec::new();
        let mut labels: Vec<u8> = Vec::new();
        let mut queue: Vec<(usize, usize, usize)> = Vec::new();
        queue.push((0, keys.len(), 0));
        proof {
            assert(queue_view(queue@) =~= level_queue(kv, 0));
            assert(valid_node(kv, root(kv)));
            assert(queue_view(queue@)[0] == root(kv));
            assert(qsum(kv, queue_view(queue@), 0, 0) == 0);
            assert(qsum(kv, queue_view(queue@), 0, 1) == psum(kv, 0, 0, kv.len() as int));
        }
        let mut i: usize = 0;
        while i < queue.len()
            invariant
                kv == key_view(keys@),
                kv.len() > 0,
                sorted_keys(kv),
                i <= queue@.len(),
                queue_view(queue@) == level_queue(kv, i as nat),
                forall|t: int| 0 <= t < queue@.len() ==> valid_node(kv, #[trigger] queue_view(queue@)[t]),
                leaf_list@ == queue_view(queue@).take(i as int).map_values(|n: Node| is_leaf(kv, n)),
                bit_list@ == queue_view(queue@).take(i as int).map_values(|n: Node| child_bits(kv, n)).flatten(),
                labels@ == queue_view(queue@).take(i as int).map_values(|n: Node| child_labels(kv, n)).flatten(),
                i + 2 * qsum(kv, queue_view(queue@), i as int, queue@.len() as int) + queue@.len() - i
                    <= 2 * total_len(kv) + 1,
            decreases 2 * qsum(kv, queue_view(queue@), i as int, queue@.len() as int) + queue@.len() - i,
        {
            let ghost q0 = queue_view(queue@);
            let ghost lab0 = labels@;
            let ghost bits0 = bit_list@;
            let (s0, e, col) = queue[i];
            let ghost n: Node = (s0 as int, e as int, col as int);
            assert(q0[i as int] == n);
            assert(valid_node(kv, n));
            let mut s: usize = s0;
            while s < e && keys[s].len() == col
                invariant
                    kv == key_view(keys@),
                    s0 <= s <= e,
                    e <= keys@.len(),
                    skip_ended(kv, col as int, s as int, e as int) == skip_ended(kv, col as int, s0 as int, e as int),
                decreases e - s,
            {
                s += 1;
            }
            proof {
                lemma_skip_bounds(kv, col as int, s0 as int, e as int);
                lemma_skip_rest(kv, n);
                lemma_psum_zero(kv, col as int, s0 as int, s as int);
                lemma_psum_split(kv, col as int, s0 as int, s as int, e as int);
                lemma_psum_shift(kv, col as int, s as int, e as int);
                lemma_qsum_front(kv, q0, i as int, q0.len() as int);
            }
            leaf_list.push(s > s0);
            let mut j: usize = s;
            while j < e
                invariant
                    kv == key_view(keys@),
                    sorted_keys(kv),
                    valid_node(kv, n),
                    n == (s0 as int, e as int, col as int),
                    s == skip_ended(kv, col as int, s0 as int, e as int),
                    forall|k: int| s <= k < e ==> (#[trigger] kv[k]).len() > col,
                    s <= j <= e,
                    e <= keys@.len(),
                    i < q0.len(),
                    q0 == level_queue(kv, i as nat),
                    forall|t: int| 0 <= t < q0.len() ==> valid_node(kv, #[trigger] q0[t]),
                    queue_view(queue@) == q0 + runs(kv, col as int, s as int, j as int).map_values(
                        |g: (int, int)| (g.0, g.1, col + 1),
                    ),
                    labels@ == lab0 + runs(kv, col as int, s as int, j as int).map_values(
                        |g: (int, int)| kv[g.0][col as int],
                    ),
                    bit_list@ == bits0 + Seq::new(runs(kv, col as int, s as int, j as int).len(), |k: int| false),
                    s < j < e ==> kv[j as int][col as int] != kv[j - 1][col as int],
                    forall|t: int| 0 <= t < queue@.len() ==> valid_node(kv, #[trigger] queue_view(queue@)[t]),
                    qsum(kv, queue_view(queue@), i + 1, queue@.len() as int) == qsum(kv, q0, i + 1, q0.len() as int)
                        + psum(kv, col + 1, s as int, j as int),
                decreases e - j,
            {
                let frm: usize = j;
                assert(kv[frm as int] == keys@[frm as int]@);
                assert(forall|k: int| s <= k < e ==> (#[trigger] keys@[k])@.len() > col) by {
                    assert(forall|k: int| s <= k < e ==> kv[k] == (#[trigger] keys@[k])@);
                }
                let key_len: usize = keys[frm].len();
                assert(col < key_len);
                let b: u8 = keys[frm][col];
                j = frm + 1;
                proof {
                    let r0 = runs(kv, col as int, s as int, frm as int);
                    assert(runs(kv, col as int, s as int, j as int) =~= r0.push((frm as int, j as int)));
                }
                while j < e && keys[j][col] == b
                    invariant
                        kv == key_view(keys@),
                        frm < j <= e,
                        s <= frm,
                        e <= keys@.len(),
                        forall|k: int| s <= k < e ==> (#[trigger] kv[k]).len() > col,
                        forall|k: int| s <= k < e ==> (#[trigger] keys@[k])@.len() > col,
                        b == kv[frm as int][col as int],
                        forall|k: int| frm <= k < j ==> (#[trigger] kv[k])[col as int] == b,
                        runs(kv, col as int, s as int, j as int) == runs(kv, col as int, s as int, frm as int).push(
                            (frm as int, j as int),
                        ),
                    decreases e - j,
                {
                    proof {
                        let r0 = runs(kv, col as int, s as int, frm as int);
                        assert(kv[j as int][col as int] == kv[j - 1][col as int]);
                        assert(runs(kv, col as int, s as int, j + 1) =~= r0.push((frm as int, j + 1)));
                    }
                    j += 1;
                }
                let ghost qv_before = queue_view(queue@);
                queue.push((frm, j, col + 1));
                labels.push(b);
                bit_list.push(false);
                proof {
                    let c: Node = (frm as int, j as int, col + 1);
                    let qv = queue_view(queue@);
                    assert(qv =~= qv_before.push(c));
                    assert forall|k: int| frm <= k < j implies (#[trigger] kv[k]).len() >= col + 1
                        && kv[k].subrange(0, col + 1) == kv[frm as int].subrange(0, col + 1) by {
                        assert(kv[k].subrange(0, col as int) == kv[s0 as int].subrange(0, col as int));
                        assert(kv[frm as int].subrange(0, col as int) == kv[s0 as int].subrange(0, col as int));
                        assert(kv[k].subrange(0, col + 1) =~= kv[k].subrange(0, col as int).push(b));
                        assert(kv[frm as int].subrange(0, col + 1) =~= kv[frm as int].subrange(0, col as int).push(b));
                    }
                    assert(valid_node(kv, c));
                    lemma_qsum_prefix(kv, qv_before, qv, i + 1, qv_before.len() as int);
                    lemma_psum_split(kv, col + 1, s as int, frm as int, j as int);
                    let rj = runs(kv, col as int, s as int, j as int);
                    assert(qv =~= q0 + rj.map_values(|g: (int, int)| (g.0, g.1, col + 1)));
                    assert(labels@ =~= lab0 + rj.map_values(|g: (int, int)| kv[g.0][col as int]));
                    assert(bit_list@ =~= bits0 + Seq::new(rj.len(), |k: int| false));
                }
            }
            bit_list.push(true);
            proof {
                let qv = queue_view(queue@);
                let rr = runs(kv, col as int, s as int, e as int);
                lemma_runs_len(kv, col as int, s as int, e as int);
                assert(node_runs(kv, n) == rr);
                assert(qv =~= q0 + children(kv, n));
                assert(qv == level_queue(kv, (i + 1) as nat));
                assert(qv.take(i + 1) =~= q0.take(i as int).push(n));
                assert(q0.take(i as int).push(n).map_values(|m: Node| is_leaf(kv, m))
                    =~= q0.take(i as int).map_values(|m: Node| is_leaf(kv, m)).push(is_leaf(kv, n)));
                assert(q0.take(i as int).push(n).map_values(|m: Node| child_bits(kv, m))
                    =~= q0.take(i as int).map_values(|m: Node| child_bits(kv, m)).push(child_bits(kv, n)));
                assert(q0.take(i as int).push(n).map_values(|m: Node| child_labels(kv, m))
                    =~= q0.take(i as int).map_values(|m: Node| child_labels(kv, m)).push(child_labels(kv, n)));
                q0.take(i as int).map_values(|m: Node| child_bits(kv, m)).lemma_flatten_push(child_bits(kv, n));
                q0.take(i as int).map_values(|m: Node| child_labels(kv, m)).lemma_flatten_push(child_labels(kv, n));
                assert(bit_list@ =~= bits0 + child_bits(kv, n));
                assert(leaf_list@ =~= qv.take(i + 1).map_values(|m: Node| is_leaf(kv, m)));
                assert(bit_list@ =~= qv.take(i + 1).map_values(|m: Node| child_bits(kv, m)).flatten());
                assert(labels@ =~= qv.take(i + 1).map_values(|m: Node| child_labels(kv, m)).flatten());
                lemma_qsum_nonneg(kv, qv, i + 1, qv.len() as int);
            }
            i += 1;
        }
        proof {
            let qv = queue_view(queue@);
            lemma_qsum_nonneg(kv, qv, i as int, qv.len() as int);
            lemma_level_queue_stable(kv, i as nat, (2 * total_len(kv) + 1) as nat);
            assert(qv.take(i as int) =~= qv);
            assert(qv == trie_nodes(kv));
        }
        SuccinctSet {
            leaves: pack(&leaf_list),
            label_bitmap: pack(&bit_list),
            labels,
        }
    }
}

} // verus!

verus! {

proof fn lemma_map_multiset<A, B>(a: Seq<A>, b: Seq<A>, f: spec_fn(A) -> B)
    requires
        a.to_multiset() == b.to_multiset(),
    ensures
        a.map_values(f).to_multiset() == b.map_values(f).to_multiset(),
    decreases a.len(),
{
    broadcast use vstd::seq_lib::group_to_multiset_ensures;
    broadcast use vstd::multiset::group_multiset_axioms;

    if a.len() == 0 {
        a.to_multiset_ensures();
        b.to_multiset_ensures();
        assert(b.len() == 0);
        assert(a.map_values(f) =~= b.map_values(f));
    } else {
        let x = a[0];
        assert(a.to_multiset().count(x) > 0) by {
            assert(a.contains(x));
        }
        assert(b.contains(x));
        let k = choose|k: int| 0 <= k < b.len() && b[k] == x;
        let ra = a.remove(0);
        let rb = b.remove(k);
        assert(ra.to_multiset() =~= rb.to_multiset());
        lemma_map_multiset(ra, rb, f);
        assert(a.map_values(f).remove(0) =~= ra.map_values(f));
        assert(b.map_values(f).remove(k) =~= rb.map_values(f));
        let ma = a.map_values(f).to_multiset();
        let mb = b.map_values(f).to_multiset();
        assert(a.map_values(f).contains(f(x)));
        assert(b.map_values(f)[k] == f(x));
        assert(ma.remove(f(x)) =~= mb.remove(f(x)));
        assert(ma =~= mb) by {
            assert forall|y: B| ma.count(y) == mb.count(y) by {
                if y == f(x) {
                    assert(ma.count(y) > 0);
                    assert(mb.count(y) > 0);
                    assert(ma.remove(f(x)).count(y) == ma.count(y) - 1);
                    assert(mb.remove(f(x)).count(y) == mb.count(y) - 1);
                } else {
                    assert(ma.remove(f(x)).count(y) == ma.count(y));
                    assert(mb.remove(f(x)).count(y) == mb.count(y));
                }
            }
        }
    }
}

/// The trie depends on the domains and suffixes given, not on the order in
/// which they are listed: the same two collections always encode alike.
pub proof fn lemma_matcher_order_insensitive(
    d1: Seq<Seq<char>>,
    s1: Seq<Seq<char>>,
    d2: Seq<Seq<char>>,
    s2: Seq<Seq<char>>,
)
    requires
        d1.to_multiset() == d2.to_multiset(),
        s1.to_multiset() == s2.to_multiset(),
    ensures
        matcher_keys(d1, s1) == matcher_keys(d2, s2),
        trie_arrays(matcher_keys(d1, s1)) == trie_arrays(matcher_keys(d2, s2)),
{
    broadcast use vstd::seq_lib::group_to_multiset_ensures;
    broadcast use vstd::multiset::group_multiset_axioms;

    let fs = |s: Seq<char>| suffix_key(s);
    let fe = |s: Seq<char>| exact_key(s);
    lemma_map_multiset(s1, s2, fs);
    lemma_map_multiset(d1, d2, fe);
    vstd::seq_lib::lemma_multiset_commutative(s1.map_values(fs), d1.map_values(fe));
    vstd::seq_lib::lemma_multiset_commutative(s2.map_values(fs), d2.map_values(fe));
    let k1 = key_list(d1, s1);
    let k2 = key_list(d2, s2);
    assert(k1.to_multiset() == k2.to_multiset());
    let le = |a: Seq<u8>, b: Seq<u8>| lex_le(a, b);
    lemma_lex_le_total();
    k1.lemma_sort_by_ensures(le);
    k2.lemma_sort_by_ensures(le);
    vstd::seq_lib::lemma_sorted_unique(k1.sort_by(le), k2.sort_by(le), le);
}

} // verus!
