//! Huffman codes over `u32` symbols, and the pointer-free form of their tree.
use vstd::prelude::*;
use vstd::multiset::Multiset;
use vstd::seq_lib::lemma_multiset_commutative;
use std::collections::HashMap;
use crate::bitvec::BitVec;
use crate::bitstream::{BitStream, bytes_bits};

verus! {

broadcast use vstd::seq_lib::group_to_multiset_ensures, vstd::multiset::group_multiset_axioms, vstd::std_specs::hash::group_hash_axioms;

/// A code tree: a leaf holds a symbol; a split holds the subtree of the
/// words that go on with a zero bit, then the one of those that go on with a one.
pub enum Code {
    Value(u32),
    Split(Box<Code>, Box<Code>),
}

/// The symbols at the leaves, in depth-first order (zero subtree first).
pub open spec fn leaves(t: Code) -> Seq<u32>
    decreases t,
{
    match t {
        Code::Value(v) => seq![v],
        Code::Split(zero, one) => leaves(*zero) + leaves(*one),
    }
}

/// The code words of the leaves, in the order of `leaves`.
pub open spec fn codes(t: Code) -> Seq<Seq<bool>>
    decreases t,
{
    match t {
        Code::Value(v) => seq![seq![]],
        Code::Split(zero, one) => codes(*zero).map_values(|c: Seq<bool>| seq![false] + c) + codes(
            *one,
        ).map_values(|c: Seq<bool>| seq![true] + c),
    }
}

/// The pointer-free shape of a tree: depth first, `false` for a split
/// (then its zero subtree, then its one subtree), `true` for a leaf.
pub open spec fn shape(t: Code) -> Seq<bool>
    decreases t,
{
    match t {
        Code::Value(v) => seq![true],
        Code::Split(zero, one) => seq![false] + shape(*zero) + shape(*one),
    }
}

pub proof fn lemma_codes_len(t: Code)
    ensures
        codes(t).len() == leaves(t).len(),
        leaves(t).len() >= 1,
    decreases t,
{
    if let Code::Split(zero, one) = t {
        lemma_codes_len(*zero);
        lemma_codes_len(*one);
    }
}

/// A tree node while the code is built: its total frequency and its number of leaves.
struct FrequencyCode {
    freq: u64,
    count: usize,
    code: Code,
}

/// `m` maps each leaf symbol of `t` to its code word, after `prefix`.
pub open spec fn maps_codes(m: Map<u32, BitVec>, t: Code, prefix: Seq<bool>) -> bool {
    forall|i: int| 0 <= i < leaves(t).len() ==> m.contains_key(#[trigger] leaves(t)[i]) && m[leaves(t)[i]]@ == prefix + codes(t)[i]
}

/// Maps each symbol of `tree`, its leaves distinct, to its code word after
/// `codeword`; other keys stay as they were.
fn build_value_map(map: &mut HashMap<u32, BitVec>, codeword: BitVec, tree: &Code)
    requires
        leaves(*tree).no_duplicates(),
    ensures
        maps_codes(final(map)@, *tree, codeword@),
        forall|k: u32| !leaves(*tree).contains(k) ==> #[trigger] final(map)@.contains_key(k) == old(map)@.contains_key(k),
        forall|k: u32| !leaves(*tree).contains(k) && old(map)@.contains_key(k) ==> #[trigger] final(map)@[k] == old(map)@[k],
    decreases tree,
{
    proof {
        lemma_codes_len(*tree);
    }
    match tree {
        Code::Value(v) => {
            let ghost cw = codeword@;
            map.insert(*v, codeword);
            assert(leaves(*tree)[0] == *v);
            assert(cw + codes(*tree)[0] =~= cw);
        },
        Code::Split(zero, one) => {
            let ghost lz = leaves(**zero);
            let ghost lo = leaves(**one);
            proof {
                lemma_codes_len(**zero);
                lemma_codes_len(**one);
                assert(leaves(*tree) == lz + lo);
                assert(lz.no_duplicates()) by {
                    assert forall|i: int, j: int| 0 <= i < lz.len() && 0 <= j < lz.len() && i != j implies lz[i] != lz[j] by {
                        assert(leaves(*tree)[i] == lz[i] && leaves(*tree)[j] == lz[j]);
                    }
                }
                assert(lo.no_duplicates()) by {
                    assert forall|i: int, j: int| 0 <= i < lo.len() && 0 <= j < lo.len() && i != j implies lo[i] != lo[j] by {
                        assert(leaves(*tree)[lz.len() + i] == lo[i] && leaves(*tree)[lz.len() + j] == lo[j]);
                    }
                }
                assert forall|i: int| 0 <= i < lz.len() implies !lo.contains(#[trigger] lz[i]) by {
                    if lo.contains(lz[i]) {
                        let j = choose|j: int| 0 <= j < lo.len() && lo[j] == lz[i];
                        assert(leaves(*tree)[i] == leaves(*tree)[lz.len() + j]);
                    }
                }
            }
            let ghost cw = codeword@;
            let mut z = BitVec::new();
            z.append(&codeword);
            z.write(false);
            assert(z@ =~= cw.push(false));
            let ghost start = map@;
            build_value_map(map, z, zero);
            let ghost middle = map@;
            let mut o = codeword;
            o.write(true);
            assert(o@ =~= cw.push(true));
            build_value_map(map, o, one);
            proof {
                let nz = lz.len() as int;
                assert forall|i: int| 0 <= i < leaves(*tree).len() implies map@.contains_key(#[trigger] leaves(*tree)[i])
                    && map@[leaves(*tree)[i]]@ == cw + codes(*tree)[i] by {
                    if i < nz {
                        assert(leaves(*tree)[i] == lz[i]);
                        assert(!lo.contains(lz[i]));
                        assert(middle.contains_key(lz[i]) && middle[lz[i]]@ == cw.push(false) + codes(**zero)[i]);
                        assert(map@.contains_key(lz[i]) && map@[lz[i]] == middle[lz[i]]);
                        assert(codes(*tree)[i] == seq![false] + codes(**zero)[i]);
                        assert(cw + (seq![false] + codes(**zero)[i]) =~= cw.push(false) + codes(**zero)[i]);
                    } else {
                        assert(leaves(*tree)[i] == lo[i - nz]);
                        assert(codes(*tree)[i] == seq![true] + codes(**one)[i - nz]);
                        assert(cw + (seq![true] + codes(**one)[i - nz]) =~= cw.push(true) + codes(**one)[i - nz]);
                    }
                }
                assert forall|k: u32| !leaves(*tree).contains(k) implies (#[trigger] map@.contains_key(k) == old(map)@.contains_key(k)
                    && (old(map)@.contains_key(k) ==> map@[k] == old(map)@[k])) by {
                    if lz.contains(k) {
                        let j = choose|j: int| 0 <= j < lz.len() && lz[j] == k;
                        assert(leaves(*tree)[j] == k);
                    }
                    if lo.contains(k) {
                        let j = choose|j: int| 0 <= j < lo.len() && lo[j] == k;
                        assert(leaves(*tree)[nz + j] == k);
                    }
                    assert(middle.contains_key(k) == start.contains_key(k));
                    assert(map@.contains_key(k) == middle.contains_key(k));
                    if start.contains_key(k) {
                        assert(middle[k] == start[k]);
                        assert(map@[k] == middle[k]);
                    }
                }
            }
        },
    }
}

/// Appends the shape of `code` to `tree` and its leaves to `value`.
fn structure_bits(tree: &mut BitVec, value: &mut Vec<u32>, code: &Code)
    ensures
        final(tree)@ == old(tree)@ + shape(*code),
        final(value)@ == old(value)@ + leaves(*code),
    decreases code,
{
    match code {
        Code::Value(v) => {
            tree.write(true);
            value.push(*v);
            assert(final(tree)@ =~= old(tree)@ + shape(*code));
        },
        Code::Split(zero, one) => {
            tree.write(false);
            structure_bits(tree, value, zero);
            structure_bits(tree, value, one);
            assert(tree@ =~= old(tree)@ + shape(*code));
            assert(value@ =~= old(value)@ + leaves(*code));
        },
    }
}


/// The symbols of a frequency table.
pub open spec fn table_symbols(counts: Seq<(u32, u64)>) -> Seq<u32> {
    counts.map_values(|p: (u32, u64)| p.0)
}

/// A node while the code is built: total frequency, number of leaves, tree.
pub type Node = (nat, nat, Code);

/// One leaf node for each entry of a frequency table, in the table's order.
pub open spec fn leaf_nodes(counts: Seq<(u32, u64)>) -> Seq<Node> {
    counts.map_values(|p: (u32, u64)| (p.1 as nat, 1nat, Code::Value(p.0)))
}

/// `i` is the first node of lowest frequency.
pub open spec fn is_lowest(s: Seq<Node>, i: int) -> bool {
    &&& 0 <= i < s.len()
    &&& forall|j: int| 0 <= j < s.len() ==> s[i].0 <= #[trigger] s[j].0
    &&& forall|j: int| 0 <= j < i ==> #[trigger] s[j].0 > s[i].0
}

/// The first node of lowest frequency.
pub open spec fn lowest(s: Seq<Node>) -> int {
    choose|i: int| is_lowest(s, i)
}

/// A sum of frequencies, held at `u64::MAX` when it would pass it.
pub open spec fn saturated(x: nat) -> nat {
    if x > u64::MAX {
        u64::MAX as nat
    } else {
        x
    }
}

/// One step of the construction: the two lowest nodes leave and their
/// merge is added last. The one with fewer leaves becomes the zero branch;
/// with as many, the second one taken out.
pub open spec fn merge_lowest(s: Seq<Node>) -> Seq<Node> {
    let a = s[lowest(s)];
    let s1 = s.remove(lowest(s));
    let b = s1[lowest(s1)];
    let s2 = s1.remove(lowest(s1));
    let freq = saturated(a.0 + b.0);
    if a.1 < b.1 {
        s2.push((freq, a.1 + b.1, Code::Split(Box::new(a.2), Box::new(b.2))))
    } else {
        s2.push((freq, a.1 + b.1, Code::Split(Box::new(b.2), Box::new(a.2))))
    }
}

/// The tree left after `n - 1` merge steps on `n` nodes.
pub open spec fn huffman_reduce(s: Seq<Node>, n: nat) -> Code
    decreases n,
{
    if n <= 1 {
        s[0].2
    } else {
        huffman_reduce(merge_lowest(s), (n - 1) as nat)
    }
}

/// The Huffman tree of a nonempty frequency table.
pub open spec fn huffman_tree(counts: Seq<(u32, u64)>) -> Code {
    huffman_reduce(leaf_nodes(counts), counts.len())
}

/// All the leaves of a node sequence.
pub open spec fn nodes_leaves(s: Seq<Node>) -> Multiset<u32>
    decreases s.len(),
{
    if s.len() == 0 {
        Multiset::empty()
    } else {
        nodes_leaves(s.drop_last()).add(leaves(s.last().2).to_multiset())
    }
}

proof fn lemma_nodes_leaves_remove(s: Seq<Node>, i: int)
    requires
        0 <= i < s.len(),
    ensures
        nodes_leaves(s) =~= nodes_leaves(s.remove(i)).add(leaves(s[i].2).to_multiset()),
    decreases s.len(),
{
    if i == s.len() - 1 {
        assert(s.remove(i) =~= s.drop_last());
    } else {
        let r = s.remove(i);
        assert(r.drop_last() =~= s.drop_last().remove(i));
        assert(r.last() == s.last());
        lemma_nodes_leaves_remove(s.drop_last(), i);
    }
}

proof fn lemma_lowest(s: Seq<Node>, i: int)
    requires
        is_lowest(s, i),
    ensures
        lowest(s) == i,
{
    let j = lowest(s);
    assert(is_lowest(s, j));
    if j < i {
        assert(s[j].0 > s[i].0);
    } else if i < j {
        assert(s[i].0 > s[j].0);
    }
}

/// The spec form of a node sequence.
spec fn nodes_view(s: Seq<FrequencyCode>) -> Seq<Node> {
    s.map_values(|n: FrequencyCode| (n.freq as nat, n.count as nat, n.code))
}

/// The position of the first node of lowest frequency.
fn lowest_index(nodes: &Vec<FrequencyCode>) -> (i: usize)
    requires
        nodes@.len() >= 1,
    ensures
        is_lowest(nodes_view(nodes@), i as int),
{
    let ghost s = nodes_view(nodes@);
    let mut best: usize = 0;
    let mut k: usize = 1;
    while k < nodes.len()
        invariant
            s == nodes_view(nodes@),
            1 <= k <= nodes@.len(),
            best < k,
            forall|j: int| 0 <= j < k ==> s[best as int].0 <= #[trigger] s[j].0,
            forall|j: int| 0 <= j < best ==> #[trigger] s[j].0 > s[best as int].0,
        decreases nodes@.len() - k,
    {
        if nodes[k].freq < nodes[best].freq {
            best = k;
        }
        k = k + 1;
    }
    best
}


/// Replaces the two lowest nodes with their merge: one step of `merge_lowest`.
fn merge_two(pqueue: &mut Vec<FrequencyCode>, total: Ghost<nat>)
    requires
        old(pqueue)@.len() > 1,
        nodes_leaves(nodes_view(old(pqueue)@)).len() == total@,
        total@ <= usize::MAX,
        forall|k: int| 0 <= k < old(pqueue)@.len() ==> (#[trigger] old(pqueue)@[k]).count == leaves(old(pqueue)@[k].code).len(),
    ensures
        final(pqueue)@.len() == old(pqueue)@.len() - 1,
        nodes_view(final(pqueue)@) == merge_lowest(nodes_view(old(pqueue)@)),
        nodes_leaves(nodes_view(final(pqueue)@)) == nodes_leaves(nodes_view(old(pqueue)@)),
        forall|k: int| 0 <= k < final(pqueue)@.len() ==> (#[trigger] final(pqueue)@[k]).count == leaves(final(pqueue)@[k].code).len(),
{
    let ghost s = nodes_view(pqueue@);
    let ghost q = pqueue@;
    let low = lowest_index(pqueue);
    let next_2 = pqueue.remove(low);
    let ghost s1 = nodes_view(pqueue@);
    assert(s1 =~= s.remove(low as int));
    let second = lowest_index(pqueue);
    let next_1 = pqueue.remove(second);
    let ghost s2 = nodes_view(pqueue@);
    let ghost q2 = pqueue@;
    assert(s2 =~= s1.remove(second as int));
    proof {
        lemma_lowest(s, low as int);
        lemma_lowest(s1, second as int);
        lemma_nodes_leaves_remove(s, low as int);
        lemma_nodes_leaves_remove(s1, second as int);
        assert(next_2.count == leaves(next_2.code).len()) by {
            assert(q[low as int] == next_2);
        }
        assert(next_1.count == leaves(next_1.code).len()) by {
            assert(q.remove(low as int)[second as int] == next_1);
        }
        assert(leaves(next_1.code).to_multiset().len() == next_1.count);
        assert(leaves(next_2.code).to_multiset().len() == next_2.count);
    }
    let freq = next_1.freq.saturating_add(next_2.freq);
    let count = next_1.count + next_2.count;
    let code = if next_2.count < next_1.count {
        Code::Split(Box::new(next_2.code), Box::new(next_1.code))
    } else {
        Code::Split(Box::new(next_1.code), Box::new(next_2.code))
    };
    proof {
        lemma_multiset_commutative(leaves(next_1.code), leaves(next_2.code));
        lemma_multiset_commutative(leaves(next_2.code), leaves(next_1.code));
    }
    pqueue.push(FrequencyCode { freq, count, code });
    proof {
        assert(nodes_view(pqueue@) =~= merge_lowest(s));
        assert(nodes_view(pqueue@).drop_last() =~= s2);
        assert forall|k: int| 0 <= k < pqueue@.len() implies (#[trigger] pqueue@[k]).count == leaves(pqueue@[k].code).len() by {
            if k < pqueue@.len() - 1 {
                assert(pqueue@[k] == q2[k]);
                let k1 = if k < second { k } else { k + 1 };
                assert(q2[k] == q.remove(low as int)[k1]);
                let k0 = if k1 < low { k1 } else { k1 + 1 };
                assert(q.remove(low as int)[k1] == q[k0]);
            }
        }
    }
}

/// A Huffman code: its tree, and the code word of each symbol.
pub struct HuffmanCode {
    value_to_codeword: HashMap<u32, BitVec>,
    codeword_tree: Code,
}

impl HuffmanCode {
    /// The code tree.
    pub closed spec fn tree(&self) -> Code {
        self.codeword_tree
    }

    pub closed spec fn wf(&self) -> bool {
        &&& leaves(self.codeword_tree).no_duplicates()
        &&& maps_codes(self.value_to_codeword@, self.codeword_tree, seq![])
    }

    /// Builds the Huffman code of a nonempty frequency table, its symbols
    /// distinct: repeatedly the two nodes of lowest frequency merge into one.
    pub fn new(counts: &Vec<(u32, u64)>) -> (r: HuffmanCode)
        requires
            counts@.len() >= 1,
            table_symbols(counts@).no_duplicates(),
        ensures
            r.wf(),
            r.tree() == huffman_tree(counts@),
            leaves(r.tree()).to_multiset() == table_symbols(counts@).to_multiset(),
    {
        let mut pqueue: Vec<FrequencyCode> = Vec::new();
        let mut i: usize = 0;
        while i < counts.len()
            invariant
                i <= counts@.len(),
                nodes_view(pqueue@) == leaf_nodes(counts@.take(i as int)),
                nodes_leaves(nodes_view(pqueue@)) == table_symbols(counts@.take(i as int)).to_multiset(),
                forall|k: int| 0 <= k < pqueue@.len() ==> (#[trigger] pqueue@[k]).count == leaves(pqueue@[k].code).len(),
            decreases counts@.len() - i,
        {
            let (v, freq) = counts[i];
            let ghost before = pqueue@;
            pqueue.push(FrequencyCode { freq, count: 1, code: Code::Value(v) });
            proof {
                let t = counts@.take(i + 1);
                assert(t.drop_last() =~= counts@.take(i as int));
                assert forall|k: int| 0 <= k < t.len() implies #[trigger] nodes_view(pqueue@)[k] == leaf_nodes(t)[k] by {
                    if k < i {
                        assert(nodes_view(before)[k] == leaf_nodes(counts@.take(i as int))[k]);
                    }
                }
                assert(nodes_view(pqueue@) =~= leaf_nodes(t));
                assert(nodes_view(pqueue@).drop_last() =~= nodes_view(before));
                assert(table_symbols(t) =~= table_symbols(counts@.take(i as int)).push(v));
                assert(leaves(Code::Value(v)).to_multiset() =~= Multiset::empty().insert(v)) by {
                    assert(seq![v] =~= Seq::<u32>::empty().push(v));
                }
            }
            i = i + 1;
        }
        assert(counts@.take(counts@.len() as int) =~= counts@);
        let total = counts.len();
        while pqueue.len() > 1
            invariant
                total == counts@.len(),
                pqueue@.len() >= 1,
                huffman_tree(counts@) == huffman_reduce(nodes_view(pqueue@), pqueue@.len() as nat),
                nodes_leaves(nodes_view(pqueue@)) == table_symbols(counts@).to_multiset(),
                nodes_leaves(nodes_view(pqueue@)).len() == counts@.len(),
                forall|k: int| 0 <= k < pqueue@.len() ==> (#[trigger] pqueue@[k]).count == leaves(pqueue@[k].code).len(),
            decreases pqueue@.len(),
        {
            merge_two(&mut pqueue, Ghost(counts@.len()));
        }
        let ghost last = pqueue@;
        let root = pqueue.pop().unwrap();
        proof {
            let s = nodes_view(last);
            assert(s.drop_last() =~= Seq::<Node>::empty());
            assert(s.last().2 == root.code);
            assert(s.len() == 1);
            assert(nodes_leaves(s.drop_last()) == Multiset::<u32>::empty());
            assert(nodes_leaves(s) =~= leaves(root.code).to_multiset());
            table_symbols(counts@).lemma_multiset_has_no_duplicates();
            assert forall|x: u32| leaves(root.code).to_multiset().contains(x) implies leaves(root.code).to_multiset().count(x) == 1 by {
                assert(table_symbols(counts@).to_multiset().contains(x));
            }
            leaves(root.code).lemma_multiset_has_no_duplicates_conv();
        }
        let mut value_to_codeword: HashMap<u32, BitVec> = HashMap::new();
        build_value_map(&mut value_to_codeword, BitVec::new(), &root.code);
        HuffmanCode { value_to_codeword, codeword_tree: root.code }
    }

    /// The code word of `v`: that of the first leaf that holds it.
    pub open spec fn codeword(&self, v: u32) -> Seq<bool> {
        codeword_of(self.tree(), v)
    }

    /// Appends the code word of `v`, a symbol of the code, to `into`.
    pub fn encode_value(&self, into: &mut BitVec, v: u32)
        requires
            self.wf(),
            leaves(self.tree()).contains(v),
        ensures
            final(into)@ == old(into)@ + self.codeword(v),
    {
        let ghost t = self.tree();
        proof {
            lemma_first_index_exists(leaves(t), v);
            let j = first_index(leaves(t), v);
            assert(leaves(t)[j] == v);
            assert(self.value_to_codeword@.contains_key(v));
            assert(seq![] + codes(t)[j] =~= codes(t)[j]);
        }
        match self.value_to_codeword.get(&v) {
            Some(c) => into.append(c),
            None => {},
        }
    }

    /// The shape of the tree and the symbols of its leaves, in depth-first order.
    pub fn structure(&self) -> (r: (BitVec, Vec<u32>))
        ensures
            r.0@ == shape(self.tree()),
            r.1@ == leaves(self.tree()),
    {
        let mut tree = BitVec::new();
        let mut values: Vec<u32> = Vec::new();
        structure_bits(&mut tree, &mut values, &self.codeword_tree);
        assert(tree@ =~= shape(self.tree()));
        assert(values@ =~= leaves(self.tree()));
        (tree, values)
    }
}


/// Reads one subtree shape at the start of `s`: its number of leaves and its length.
pub open spec fn parse_count(s: Seq<bool>) -> Option<(nat, nat)>
    decreases s.len(),
{
    if s.len() == 0 {
        None
    } else if s[0] {
        Some((1, 1))
    } else {
        match parse_count(s.drop_first()) {
            None => None,
            Some((n1, c1)) => if 1 + c1 <= s.len() {
                match parse_count(s.skip((1 + c1) as int)) {
                    None => None,
                    Some((n2, c2)) => Some((n1 + n2, 1 + c1 + c2)),
                }
            } else {
                None
            },
        }
    }
}

/// Walks down the tree whose shape starts `shape`, taking the zero or the
/// one branch of each split by the next bit of `data`, with `acc` leaves
/// left behind so far: the index of the leaf reached and the data bits left.
pub open spec fn walk(shape: Seq<bool>, data: Seq<bool>, acc: nat) -> Option<(nat, Seq<bool>)>
    decreases shape.len(),
{
    if shape.len() == 0 {
        None
    } else if shape[0] {
        Some((acc, data))
    } else if data.len() == 0 {
        None
    } else if !data[0] {
        walk(shape.drop_first(), data.drop_first(), acc)
    } else {
        match parse_count(shape.drop_first()) {
            None => None,
            Some((n, c)) => if 1 + c <= shape.len() {
                walk(shape.skip((1 + c) as int), data.drop_first(), acc + n)
            } else {
                None
            },
        }
    }
}

pub proof fn lemma_parse_count_bounds(s: Seq<bool>)
    ensures
        match parse_count(s) {
            Some((n, c)) => 1 <= c <= s.len() && n <= c,
            None => true,
        },
    decreases s.len(),
{
    if s.len() > 0 && !s[0] {
        lemma_parse_count_bounds(s.drop_first());
        if let Some((n1, c1)) = parse_count(s.drop_first()) {
            if 1 + c1 <= s.len() {
                lemma_parse_count_bounds(s.skip((1 + c1) as int));
            }
        }
    }
}

pub proof fn lemma_walk_grows(shape: Seq<bool>, data: Seq<bool>, acc: nat)
    ensures
        match walk(shape, data, acc) {
            Some((i, _)) => i >= acc,
            None => true,
        },
    decreases shape.len(),
{
    if shape.len() > 0 && !shape[0] && data.len() > 0 {
        if !data[0] {
            lemma_walk_grows(shape.drop_first(), data.drop_first(), acc);
        } else if let Some((n, c)) = parse_count(shape.drop_first()) {
            if 1 + c <= shape.len() {
                lemma_walk_grows(shape.skip((1 + c) as int), data.drop_first(), acc + n);
            }
        }
    }
}

/// Counts the leaves of the subtree whose shape `tree` reads next, reading past it.
fn count(tree: &mut BitStream) -> (r: Option<usize>)
    requires
        old(tree).wf(),
    ensures
        final(tree).wf(),
        match parse_count(old(tree)@) {
            Some((n, c)) => if n <= usize::MAX {
                r == Some(n as usize) && final(tree)@ == old(tree)@.skip(c as int)
            } else {
                r is None
            },
            None => r is None,
        },
    decreases old(tree)@.len(),
{
    let ghost s = tree@;
    proof {
        lemma_parse_count_bounds(s);
        lemma_parse_count_bounds(s.drop_first());
    }
    match tree.read_one() {
        None => None,
        Some(true) => Some(1),
        Some(false) => {
            let a = match count(tree) {
                Some(a) => a,
                None => {
                    return None;
                },
            };
            let ghost mid = tree@;
            let ghost c1 = parse_count(s.drop_first())->Some_0.1;
            assert(mid =~= s.skip((1 + c1) as int));
            proof {
                lemma_parse_count_bounds(mid);
            }
            let b = match count(tree) {
                Some(b) => b,
                None => {
                    return None;
                },
            };
            proof {
                let c2 = parse_count(mid)->Some_0.1;
                assert(tree@ =~= s.skip((1 + c1 + c2) as int));
            }
            a.checked_add(b)
        },
    }
}

/// Decodes one symbol: walks the tree whose shape is packed in `tree`,
/// taking a bit of `stream` at each split; the index of the leaf reached in
/// depth-first order. `None` when either runs out of bits.
pub fn huffman_index(stream: &mut BitStream, tree: &[u8]) -> (r: Option<usize>)
    requires
        old(stream).wf(),
    ensures
        final(stream).wf(),
        match walk(bytes_bits(tree@), old(stream)@, 0) {
            Some((i, rest)) => if i <= usize::MAX {
                r == Some(i as usize) && final(stream)@ == rest
            } else {
                r is None
            },
            None => r is None,
        },
{
    let mut tree_stream = BitStream::new(tree);
    let mut value: usize = 0;
    loop
        invariant
            tree_stream.wf(),
            stream.wf(),
            walk(bytes_bits(tree@), old(stream)@, 0) == walk(tree_stream@, stream@, value as nat),
        decreases tree_stream@.len(),
    {
        let ghost shape = tree_stream@;
        let ghost data = stream@;
        proof {
            lemma_walk_grows(shape, data, value as nat);
            lemma_parse_count_bounds(shape.drop_first());
        }
        let leaf = match tree_stream.read_one() {
            Some(b) => b,
            None => {
                return None;
            },
        };
        if leaf {
            return Some(value);
        }
        let bit = match stream.read_one() {
            Some(b) => b,
            None => {
                return None;
            },
        };
        if bit {
            let n = match count(&mut tree_stream) {
                Some(n) => n,
                None => {
                    proof {
                        if let Some((n, c)) = parse_count(shape.drop_first()) {
                            lemma_walk_grows(shape.skip((1 + c) as int), data.drop_first(), (value + n) as nat);
                        }
                    }
                    return None;
                },
            };
            let ghost c = parse_count(shape.drop_first())->Some_0.1;
            assert(tree_stream@ =~= shape.skip((1 + c) as int));
            proof {
                lemma_walk_grows(shape.skip((1 + c) as int), data.drop_first(), (value + n) as nat);
            }
            value = match value.checked_add(n) {
                Some(v) => v,
                None => {
                    return None;
                },
            };
        }
    }
}

pub proof fn lemma_parse_count_shape(t: Code, rest: Seq<bool>)
    ensures
        parse_count(shape(t) + rest) == Some((leaves(t).len(), shape(t).len())),
    decreases t,
{
    if let Code::Split(zero, one) = t {
        let s = shape(t) + rest;
        assert(s.drop_first() =~= shape(*zero) + (shape(*one) + rest));
        lemma_parse_count_shape(*zero, shape(*one) + rest);
        assert(s.skip(1 + shape(*zero).len() as int) =~= shape(*one) + rest);
        lemma_parse_count_shape(*one, rest);
    } else {
        assert((shape(t) + rest)[0]);
    }
}

/// Following the code word of leaf `j` through the shape reaches leaf `j`,
/// with the data after the code word left.
pub proof fn lemma_walk_code(t: Code, j: int, pad: Seq<bool>, rest: Seq<bool>, acc: nat)
    requires
        0 <= j < leaves(t).len(),
    ensures
        walk(shape(t) + pad, codes(t)[j] + rest, acc) == Some(((acc + j) as nat, rest)),
    decreases t,
{
    lemma_codes_len(t);
    match t {
        Code::Value(v) => {
            assert(codes(t)[j] + rest =~= rest);
            assert((shape(t) + pad)[0]);
        },
        Code::Split(zero, one) => {
            lemma_codes_len(*zero);
            lemma_codes_len(*one);
            let s = shape(t) + pad;
            let nz = leaves(*zero).len() as int;
            if j < nz {
                let c = codes(*zero)[j];
                assert(codes(t)[j] == seq![false] + c);
                let d = codes(t)[j] + rest;
                assert(d.drop_first() =~= c + rest);
                assert(s.drop_first() =~= shape(*zero) + (shape(*one) + pad));
                lemma_walk_code(*zero, j, shape(*one) + pad, rest, acc);
            } else {
                let c = codes(*one)[j - nz];
                assert(codes(t)[j] == seq![true] + c);
                let d = codes(t)[j] + rest;
                assert(d.drop_first() =~= c + rest);
                assert(s.drop_first() =~= shape(*zero) + (shape(*one) + pad));
                lemma_parse_count_shape(*zero, shape(*one) + pad);
                assert(s.skip(1 + shape(*zero).len() as int) =~= shape(*one) + pad);
                lemma_walk_code(*one, j - nz, pad, rest, acc + nz as nat);
            }
        },
    }
}

/// No code word of a tree is a prefix of another.
pub proof fn lemma_prefix_free(t: Code)
    ensures
        forall|i: int, j: int|
            0 <= i < codes(t).len() && 0 <= j < codes(t).len() && i != j ==> !(#[trigger] codes(t)[i]).is_prefix_of(
                #[trigger] codes(t)[j],
            ),
    decreases t,
{
    lemma_codes_len(t);
    if let Code::Split(zero, one) = t {
        lemma_codes_len(*zero);
        lemma_codes_len(*one);
        lemma_prefix_free(*zero);
        lemma_prefix_free(*one);
        let nz = leaves(*zero).len() as int;
        assert forall|i: int, j: int|
            0 <= i < codes(t).len() && 0 <= j < codes(t).len() && i != j implies !(#[trigger] codes(t)[i]).is_prefix_of(
                #[trigger] codes(t)[j],
            ) by {
            let a = codes(t)[i];
            let b = codes(t)[j];
            if a.is_prefix_of(b) {
                assert(b[0] == a[0]);
                if i < nz && j < nz {
                    let ci = codes(*zero)[i];
                    let cj = codes(*zero)[j];
                    assert(a == seq![false] + ci);
                    assert(b == seq![false] + cj);
                    assert forall|k: int| 0 <= k < ci.len() implies #[trigger] ci[k] == cj[k] by {
                        assert(a[k + 1] == b[k + 1]);
                    }
                    assert(ci =~= cj.subrange(0, ci.len() as int));
                    assert(ci.is_prefix_of(cj));
                } else if i >= nz && j >= nz {
                    let ci = codes(*one)[i - nz];
                    let cj = codes(*one)[j - nz];
                    assert(a == seq![true] + ci);
                    assert(b == seq![true] + cj);
                    assert forall|k: int| 0 <= k < ci.len() implies #[trigger] ci[k] == cj[k] by {
                        assert(a[k + 1] == b[k + 1]);
                    }
                    assert(ci =~= cj.subrange(0, ci.len() as int));
                    assert(ci.is_prefix_of(cj));
                } else if i < nz {
                    assert(a[0] == false);
                    assert(b[0] == true);
                } else {
                    assert(a[0] == true);
                    assert(b[0] == false);
                }
            }
        }
    }
}

/// Huffman round trip: in a code built from a frequency table, the code word
/// of each symbol of the table, followed by anything, walks the serialized
/// shape (padded by anything) to a leaf whose value is that symbol, and
/// consumes exactly the code word.
pub proof fn lemma_huffman_round_trip(
    code: HuffmanCode,
    counts: Seq<(u32, u64)>,
    v: u32,
    pad: Seq<bool>,
    rest: Seq<bool>,
)
    requires
        leaves(code.tree()).to_multiset() == table_symbols(counts).to_multiset(),
        table_symbols(counts).contains(v),
    ensures
        ({
            let j = first_index(leaves(code.tree()), v);
            &&& walk(shape(code.tree()) + pad, code.codeword(v) + rest, 0) == Some((j as nat, rest))
            &&& leaves(code.tree())[j] == v
        }),
{
    let t = code.tree();
    assert(leaves(t).to_multiset().count(v) > 0);
    assert(leaves(t).contains(v));
    lemma_first_index_exists(leaves(t), v);
    lemma_walk_code(t, first_index(leaves(t), v), pad, rest, 0);
}

/// The code word of `v` in tree `t`: that of the first leaf that holds it.
pub open spec fn codeword_of(t: Code, v: u32) -> Seq<bool> {
    codes(t)[first_index(leaves(t), v)]
}

/// `i` is the first position of `v` in `s`.
pub open spec fn is_first_index(s: Seq<u32>, v: u32, i: int) -> bool {
    0 <= i < s.len() && s[i] == v && forall|k: int| 0 <= k < i ==> s[k] != v
}

/// The first position of `v` in `s`.
pub open spec fn first_index(s: Seq<u32>, v: u32) -> int {
    choose|i: int| is_first_index(s, v, i)
}

pub proof fn lemma_first_index(s: Seq<u32>, v: u32, i: int)
    requires
        is_first_index(s, v, i),
    ensures
        first_index(s, v) == i,
{
    let j = first_index(s, v);
    assert(is_first_index(s, v, j));
    if j < i {
        assert(s[j] != v);
    } else if i < j {
        assert(s[i] != v);
    }
}

pub proof fn lemma_first_index_exists(s: Seq<u32>, v: u32)
    requires
        s.contains(v),
    ensures
        is_first_index(s, v, first_index(s, v)),
    decreases s.len(),
{
    if s.last() == v && !s.drop_last().contains(v) {
        assert(is_first_index(s, v, s.len() - 1)) by {
            assert forall|k: int| 0 <= k < s.len() - 1 implies s[k] != v by {
                assert(s.drop_last()[k] == s[k]);
            }
        }
    } else {
        let k = choose|k: int| 0 <= k < s.len() && s[k] == v;
        if k == s.len() - 1 {
            assert(s.drop_last().contains(v));
        } else {
            assert(s.drop_last()[k] == v);
        }
        lemma_first_index_exists(s.drop_last(), v);
        let j = first_index(s.drop_last(), v);
        assert(is_first_index(s, v, j)) by {
            assert forall|m: int| 0 <= m < j implies s[m] != v by {
                assert(s.drop_last()[m] == s[m]);
            }
        }
    }
}

} // verus!
