use vstd::prelude::*;
use vstd::multiset::Multiset;
use vstd::seq_lib::group_to_multiset_ensures;
use crate::data_structures::huffman_node::{
    HuffmanLeaf, HuffmanNode, Link, TreeNode, child_for, contains_char, freq_of,
    lemma_walk_path, path_to_char, reaches, tree_wf, walk,
};
use crate::data_structures::priority_queue::{Heap, Ranked};

verus! {

broadcast use group_to_multiset_ensures, vstd::multiset::group_multiset_axioms;

/// Tree nodes rank by weight, lightest first: the heap then always hands out
/// one of the lowest-frequency subtrees.
impl Ranked for TreeNode {
    open spec fn rank_ge(self, other: Self) -> bool {
        freq_of(self) <= freq_of(other)
    }

    proof fn lemma_rank_total(a: Self, b: Self) {
    }

    proof fn lemma_rank_trans(a: Self, b: Self, c: Self) {
    }

    fn outranks_or_ties(&self, other: &Self) -> (r: bool) {
        let fa = match self {
            TreeNode::Leaf(l) => l.node.frequency,
            TreeNode::Internal(n) => n.frequency,
        };
        let fb = match other {
            TreeNode::Leaf(l) => l.node.frequency,
            TreeNode::Internal(n) => n.frequency,
        };
        fa <= fb
    }
}

/// How many times the byte `b` occurs in `t`.
pub open spec fn count_byte(t: Seq<u8>, b: u8) -> nat
    decreases t.len(),
{
    if t.len() == 0 {
        0
    } else {
        count_byte(t.drop_last(), b) + if t.last() == b {
            1nat
        } else {
            0nat
        }
    }
}

/// No byte occurs more often than the text is long.
pub proof fn lemma_count_byte_le_len(t: Seq<u8>, b: u8)
    ensures
        count_byte(t, b) <= t.len(),
    decreases t.len(),
{
    if t.len() > 0 {
        lemma_count_byte_le_len(t.drop_last(), b);
    }
}

/// A byte occurs in the text exactly when its count is positive.
pub proof fn lemma_count_byte_positive(t: Seq<u8>, b: u8)
    ensures
        count_byte(t, b) > 0 <==> t.contains(b),
    decreases t.len(),
{
    if t.len() > 0 {
        lemma_count_byte_positive(t.drop_last(), b);
        if t.last() != b && t.contains(b) {
            let i = choose|i: int| 0 <= i < t.len() && t[i] == b;
            assert(t.drop_last()[i] == b);
        }
        if t.drop_last().contains(b) {
            let i = choose|i: int| 0 <= i < t.drop_last().len() && t.drop_last()[i] == b;
            assert(t[i] == b);
        }
    }
}

/// The per-byte code table, as sequences: entry `c` is the bit string for the
/// byte `c`, where present.
pub open spec fn table_view(t: Seq<Option<Vec<u8>>>) -> Seq<Option<Seq<u8>>> {
    t.map_values(
        |o: Option<Vec<u8>>|
            match o {
                Option::None => Option::<Seq<u8>>::None,
                Option::Some(v) => Option::Some(v@),
            },
    )
}

/// The code the table assigns to the byte `c`.
pub open spec fn code_of(table: Seq<Option<Seq<u8>>>, c: u8) -> Seq<u8> {
    table[c as int].unwrap()
}

/// The Huffman encoding of a text under a code table: the codes of its bytes,
/// concatenated in text order.
pub open spec fn huffman_encode(table: Seq<Option<Seq<u8>>>, text: Seq<u8>) -> Seq<u8>
    decreases text.len(),
{
    if text.len() == 0 {
        Seq::empty()
    } else {
        huffman_encode(table, text.drop_last()) + code_of(table, text.last())
    }
}

/// The Huffman decoding of a bit string against a tree: nothing without a
/// tree, one byte per bit under a lone leaf, and the greedy root walk under an
/// internal root.
pub open spec fn huffman_decode(root: Link, bits: Seq<u8>) -> Seq<u8> {
    match root {
        Option::None => Seq::empty(),
        Option::Some(t) => {
            match *t {
                TreeNode::Leaf(l) => Seq::new(bits.len(), |i: int| l.character),
                TreeNode::Internal(n) => walk(*t, *t, bits),
            }
        },
    }
}

/// The encoding of a nonempty text starts with the code of its first byte.
proof fn lemma_encode_front(table: Seq<Option<Seq<u8>>>, text: Seq<u8>)
    requires
        text.len() >= 1,
    ensures
        huffman_encode(table, text) == code_of(table, text[0]) + huffman_encode(
            table,
            text.drop_first(),
        ),
    decreases text.len(),
{
    if text.len() == 1 {
        assert(text.drop_last().len() == 0);
        assert(text.drop_first().len() == 0);
        assert(text.last() == text[0]);
        assert(huffman_encode(table, text) == huffman_encode(table, text.drop_last()) + code_of(
            table,
            text.last(),
        ));
        assert(huffman_encode(table, text.drop_last()) == Seq::<u8>::empty());
        assert(huffman_encode(table, text.drop_first()) == Seq::<u8>::empty());
        assert(huffman_encode(table, text) =~= code_of(table, text[0]) + huffman_encode(
            table,
            text.drop_first(),
        ));
    } else {
        lemma_encode_front(table, text.drop_last());
        assert(text.drop_last().drop_first() =~= text.drop_first().drop_last());
        assert(text.drop_last()[0] == text[0]);
        assert(text.drop_first().last() == text.last());
        assert(huffman_encode(table, text) =~= code_of(table, text[0]) + huffman_encode(
            table,
            text.drop_first(),
        ));
    }
}

/// The round trip of the Huffman codec under an internal root: when every byte
/// of the text has a code that is a root path to a leaf carrying that byte,
/// the greedy walk over the concatenated codes reproduces the text.
pub proof fn lemma_huffman_round_trip(root: TreeNode, table: Seq<Option<Seq<u8>>>, text: Seq<u8>)
    requires
        root is Internal,
        forall|i: int|
            0 <= i < text.len() ==> table[#[trigger] text[i] as int] is Some && path_to_char(
                root,
                code_of(table, text[i]),
                text[i],
            ),
    ensures
        walk(root, root, huffman_encode(table, text)) == text,
    decreases text.len(),
{
    if text.len() == 0 {
        assert(walk(root, root, huffman_encode(table, text)) =~= text);
    } else {
        lemma_encode_front(table, text);
        assert(forall|i: int|
            0 <= i < text.drop_first().len() ==> #[trigger] text.drop_first()[i] == text[i + 1]);
        lemma_huffman_round_trip(root, table, text.drop_first());
        lemma_walk_path(
            root,
            root,
            code_of(table, text[0]),
            huffman_encode(table, text.drop_first()),
            text[0],
        );
        assert(walk(root, root, huffman_encode(table, text)) =~= seq![text[0]]
            + text.drop_first());
        assert(seq![text[0]] + text.drop_first() =~= text);
    }
}

/// Some tree in the collection carries the byte `c` in one of its leaves.
pub open spec fn trees_contain_char(m: Multiset<TreeNode>, c: u8) -> bool {
    exists|t: TreeNode| #[trigger] m.contains(t) && contains_char(t, c)
}

/// The code table entry for `c` is a root path to a leaf carrying `c`.
pub open spec fn valid_entry(root: TreeNode, table: Seq<Option<Seq<u8>>>, c: u8) -> bool {
    &&& table[c as int] is Some
    &&& path_to_char(root, code_of(table, c), c)
}

/// The sequence holds nothing but the two branch bytes `0` and `1`.
pub open spec fn bits_only(s: Seq<u8>) -> bool {
    forall|i: int| 0 <= i < s.len() ==> s[i] == 48 || s[i] == 49
}

/// A path reaches at most one node.
proof fn lemma_reaches_unique(cur: TreeNode, p: Seq<u8>, x: TreeNode, y: TreeNode)
    requires
        reaches(cur, p, x),
        reaches(cur, p, y),
    ensures
        x == y,
    decreases p.len(),
{
    if p.len() > 0 {
        lemma_reaches_unique(*child_for(cur, p[0]).unwrap(), p.drop_first(), x, y);
    }
}

/// A path made of two legs passes through the node the first leg reaches.
proof fn lemma_reaches_split(cur: TreeNode, a: Seq<u8>, b: Seq<u8>, x: TreeNode)
    requires
        reaches(cur, a + b, x),
    ensures
        exists|m: TreeNode| #![auto] reaches(cur, a, m) && reaches(m, b, x),
    decreases a.len(),
{
    if a.len() == 0 {
        assert(a + b =~= b);
        assert(reaches(cur, a, cur));
        assert(reaches(cur, b, x));
    } else {
        assert((a + b)[0] == a[0]);
        assert((a + b).drop_first() =~= a.drop_first() + b);
        let next = *child_for(cur, a[0]).unwrap();
        lemma_reaches_split(next, a.drop_first(), b, x);
        let m = choose|m: TreeNode| #![auto] reaches(next, a.drop_first(), m) && reaches(m, b, x);
        assert(reaches(cur, a, m));
    }
}

/// No leaf's code is a prefix of another leaf's code: the table is a prefix
/// code over the bytes it covers.
pub proof fn lemma_codes_prefix_free(
    root: TreeNode,
    table: Seq<Option<Seq<u8>>>,
    c1: u8,
    c2: u8,
)
    requires
        valid_entry(root, table, c1),
        valid_entry(root, table, c2),
        c1 != c2,
    ensures
        !(code_of(table, c1).len() <= code_of(table, c2).len() && code_of(table, c2).take(
            code_of(table, c1).len() as int,
        ) == code_of(table, c1)),
{
    let p1 = code_of(table, c1);
    let p2 = code_of(table, c2);
    if p1.len() <= p2.len() && p2.take(p1.len() as int) == p1 {
        let l1 = choose|l: HuffmanLeaf|
            #![auto]
            reaches(root, p1, TreeNode::Leaf(l)) && l.character == c1;
        let l2 = choose|l: HuffmanLeaf|
            #![auto]
            reaches(root, p2, TreeNode::Leaf(l)) && l.character == c2;
        let rest = p2.skip(p1.len() as int);
        assert(p2 =~= p1 + rest);
        lemma_reaches_split(root, p1, rest, TreeNode::Leaf(l2));
        let m = choose|m: TreeNode|
            #![auto]
            reaches(root, p1, m) && reaches(m, rest, TreeNode::Leaf(l2));
        lemma_reaches_unique(root, p1, m, TreeNode::Leaf(l1));
        if rest.len() == 0 {
            assert(l1 == l2);
            assert(false);
        } else {
            assert(!(TreeNode::Leaf(l1) is Internal));
            assert(false);
        }
    }
}

/// The Huffman codec: the input text, its per-byte frequencies, the prefix
/// tree built from them, the per-byte code table read off the tree, and the
/// encoded and decoded buffers.
pub struct Huffman {
    pub root: Link,
    pub text: Vec<u8>,
    pub char_frequencies: Vec<u64>,
    pub char_encodings: Vec<Option<Vec<u8>>>,
    pub encoded: Vec<u8>,
    pub decoded: Vec<u8>,
}

impl Huffman {
    /// The struct's internal consistency: one frequency per byte value,
    /// counted from the text, one table slot per byte value, and a
    /// well-shaped tree whenever one has been built.
    pub open spec fn wf(&self) -> bool {
        &&& self.char_frequencies@.len() == 256
        &&& forall|b: int|
            0 <= b < 256 ==> self.char_frequencies@[b] == count_byte(self.text@, b as u8)
        &&& self.char_encodings@.len() == 256
        &&& self.root is Some ==> tree_wf(*self.root.unwrap())
    }

    /// A fresh codec over the given text, with the byte frequencies already
    /// counted and everything else empty.
    pub fn new(text: Vec<u8>) -> (r: Self)
        ensures
            r.wf(),
            r.text@ == text@,
            r.root is None,
            r.encoded@ == Seq::<u8>::empty(),
            r.decoded@ == Seq::<u8>::empty(),
    {
        let mut huffman = Huffman {
            root: None,
            text,
            char_frequencies: Vec::new(),
            char_encodings: Vec::new(),
            encoded: Vec::new(),
            decoded: Vec::new(),
        };
        huffman.populate_char_frequencies();
        huffman.char_encodings = Self::empty_table();
        huffman
    }

    /// A table with one empty slot per byte value.
    fn empty_table() -> (r: Vec<Option<Vec<u8>>>)
        ensures
            r@.len() == 256,
            forall|i: int| 0 <= i < 256 ==> r@[i] is None,
    {
        let mut table: Vec<Option<Vec<u8>>> = Vec::new();
        let mut i: usize = 0;
        while i < 256
            invariant
                table@.len() == i,
                i <= 256,
                forall|j: int| 0 <= j < i ==> table@[j] is None,
            decreases 256 - i,
        {
            table.push(None);
            i = i + 1;
        }
        table
    }

    /// Counts how often each byte value occurs in the text.
    fn populate_char_frequencies(&mut self)
        ensures
            final (self).text@ == old(self).text@,
            final (self).root == old(self).root,
            final (self).char_encodings@ == old(self).char_encodings@,
            final (self).encoded@ == old(self).encoded@,
            final (self).decoded@ == old(self).decoded@,
            final (self).char_frequencies@.len() == 256,
            forall|b: int|
                0 <= b < 256 ==> final (self).char_frequencies@[b] == count_byte(
                    final (self).text@,
                    b as u8,
                ),
    {
        let mut freqs: Vec<u64> = Vec::new();
        let mut i: usize = 0;
        while i < 256
            invariant
                freqs@.len() == i,
                i <= 256,
                forall|b: int| 0 <= b < i ==> freqs@[b] == 0,
            decreases 256 - i,
        {
            freqs.push(0);
            i = i + 1;
        }
        let n = self.text.len();
        let mut k: usize = 0;
        proof {
            assert forall|b: int| 0 <= b < 256 implies freqs@[b] == count_byte(
                self.text@.take(0),
                b as u8,
            ) by {
                assert(self.text@.take(0).len() == 0);
            }
        }
        while k < n
            invariant
                n == self.text@.len(),
                k <= n,
                freqs@.len() == 256,
                forall|b: int|
                    0 <= b < 256 ==> freqs@[b] == count_byte(self.text@.take(k as int), b as u8),
            decreases n - k,
        {
            let c = self.text[k];
            proof {
                lemma_count_byte_le_len(self.text@.take(k as int), c);
            }
            let cur = freqs[c as usize];
            freqs[c as usize] = cur + 1;
            proof {
                assert forall|b: int| 0 <= b < 256 implies freqs@[b] == count_byte(
                    self.text@.take(k + 1),
                    b as u8,
                ) by {
                    assert(self.text@.take(k + 1).drop_last() =~= self.text@.take(k as int));
                    assert(self.text@.take(k + 1).last() == self.text@[k as int]);
                }
            }
            k = k + 1;
        }
        proof {
            assert(self.text@.take(n as int) =~= self.text@);
        }
        self.char_frequencies = freqs;
    }

    /// Builds the prefix tree from the stored frequencies: one leaf per
    /// occurring byte, lowest-frequency pairs joined first. Yields no tree
    /// exactly when no byte occurs, and a tree holding every occurring byte
    /// otherwise.
    fn build_tree(&self) -> (r: Link)
        requires
            self.wf(),
        ensures
            (r is Some) <==> exists|b: int| 0 <= b < 256 && self.char_frequencies@[b] > 0,
            r is Some ==> tree_wf(*r.unwrap()),
            r is Some ==> forall|b: u8|
                count_byte(self.text@, b) > 0 ==> contains_char(*r.unwrap(), b),
    {
        let mut heap: Heap<TreeNode> = Heap::with_capacity(self.text.len());
        let mut b: usize = 0;
        while b < 256
            invariant
                b <= 256,
                self.wf(),
                heap.well_formed(),
                (heap@.len() > 0) <==> exists|c: int| 0 <= c < b && self.char_frequencies@[c] > 0,
                forall|c: u8|
                    (c as int) < b && count_byte(self.text@, c) > 0 ==> trees_contain_char(
                        heap@.to_multiset(),
                        c,
                    ),
                forall|t: TreeNode| #[trigger] heap@.to_multiset().contains(t) ==> tree_wf(t),
            decreases 256 - b,
        {
            let f = self.char_frequencies[b];
            if f > 0 {
                let ghost before = heap@.to_multiset();
                let leaf = TreeNode::Leaf(HuffmanLeaf::new(b as u8, f));
                heap.push(leaf);
                proof {
                    let after = heap@.to_multiset();
                    assert(after == before.insert(leaf));
                    assert(after.count(leaf) >= 1);
                    assert(after.contains(leaf));
                    assert(tree_wf(leaf));
                    assert forall|c: u8|
                        (c as int) < b + 1 && count_byte(self.text@, c) > 0 implies
                        trees_contain_char(after, c) by {
                        if (c as int) < b {
                            assert(trees_contain_char(before, c));
                            let t = choose|t: TreeNode|
                                #[trigger] before.contains(t) && contains_char(t, c);
                            assert(after.count(t) >= before.count(t));
                            assert(after.contains(t));
                        } else {
                            assert(c as int == b);
                            assert(contains_char(leaf, c));
                        }
                    }
                    assert forall|t: TreeNode| #[trigger] after.contains(t) implies tree_wf(
                        t,
                    ) by {
                        if t != leaf {
                            assert(before.count(t) == after.count(t));
                            assert(before.contains(t));
                        }
                    }
                }
            }
            b = b + 1;
        }
        while heap.size() > 1
            invariant
                heap.well_formed(),
                (heap@.len() > 0) <==> exists|c: int|
                    0 <= c < 256 && self.char_frequencies@[c] > 0,
                forall|c: u8|
                    count_byte(self.text@, c) > 0 ==> trees_contain_char(heap@.to_multiset(), c),
                forall|t: TreeNode| #[trigger] heap@.to_multiset().contains(t) ==> tree_wf(t),
                self.wf(),
            decreases heap@.len(),
        {
            let ghost ms0 = heap@.to_multiset();
            let first = heap.pop().unwrap();
            let ghost ms1 = heap@.to_multiset();
            let second = heap.pop().unwrap();
            let ghost ms2 = heap@.to_multiset();
            proof {
                assert(ms0.contains(first));
                assert(ms1 == ms0.remove(first));
                assert(ms2 == ms1.remove(second));
                assert(ms1.contains(second));
                assert(tree_wf(first));
                if second == first {
                    assert(tree_wf(second));
                } else {
                    assert(ms0.count(second) == ms1.count(second));
                    assert(ms0.contains(second));
                    assert(tree_wf(second));
                }
            }
            let combined = TreeNode::Internal(
                HuffmanNode::new(Some(Box::new(first)), Some(Box::new(second))),
            );
            heap.push(combined);
            proof {
                let ms3 = heap@.to_multiset();
                assert(ms3 == ms2.insert(combined));
                assert(tree_wf(combined)) by {
                    assert(*combined->Internal_0.left.unwrap() == first);
                    assert(*combined->Internal_0.right.unwrap() == second);
                }
                assert(ms3.count(combined) >= 1);
                assert(ms3.contains(combined));
                assert forall|c: u8| count_byte(self.text@, c) > 0 implies trees_contain_char(
                    ms3,
                    c,
                ) by {
                    assert(trees_contain_char(ms0, c));
                    let t = choose|t: TreeNode| #[trigger] ms0.contains(t) && contains_char(t, c);
                    if t == first || t == second {
                        assert(contains_char(combined, c)) by {
                            assert(*combined->Internal_0.left.unwrap() == first);
                            assert(*combined->Internal_0.right.unwrap() == second);
                        }
                        assert(trees_contain_char(ms3, c));
                    } else {
                        assert(ms1.count(t) == ms0.count(t));
                        assert(ms2.count(t) == ms1.count(t));
                        assert(ms3.count(t) >= ms2.count(t));
                        assert(ms3.contains(t));
                        assert(trees_contain_char(ms3, c));
                    }
                }
                assert forall|t: TreeNode| #[trigger] ms3.contains(t) implies tree_wf(t) by {
                    if t != combined {
                        assert(ms2.count(t) == ms3.count(t));
                        assert(ms1.count(t) >= ms2.count(t));
                        assert(ms0.count(t) >= ms1.count(t));
                        assert(ms0.contains(t));
                    }
                }
            }
        }
        let ghost ms_end = heap@.to_multiset();
        let ghost final_len = heap@.len();
        let root = heap.pop();
        match root {
            None => {
                proof {
                    assert(final_len == 0);
                }
                None
            },
            Some(tree) => {
                proof {
                    assert(ms_end.contains(tree));
                    assert(tree_wf(tree));
                    assert(final_len == 1);
                    assert forall|c: u8| count_byte(self.text@, c) > 0 implies contains_char(
                        tree,
                        c,
                    ) by {
                        assert(trees_contain_char(ms_end, c));
                        let t = choose|t: TreeNode|
                            #[trigger] ms_end.contains(t) && contains_char(t, c);
                        if t != tree {
                            let after = heap@.to_multiset();
                            assert(after == ms_end.remove(tree));
                            assert(after.count(t) == ms_end.count(t));
                            assert(after.contains(t));
                            assert(heap@.len() == 0);
                            assert(!heap@.contains(t));
                            assert(false);
                        }
                    }
                }
                Some(Box::new(tree))
            },
        }
    }

    /// Walks the tree and records, for every leaf, the branch path that leads
    /// to it: `0` for left, `1` for right. The path prefix in `code` is
    /// restored before returning.
    fn generate(
        node: &TreeNode,
        code: &mut Vec<u8>,
        table: &mut Vec<Option<Vec<u8>>>,
        Ghost(root): Ghost<TreeNode>,
    )
        requires
            tree_wf(*node),
            root is Internal,
            reaches(root, old(code)@, *node),
            bits_only(old(code)@),
            old(table)@.len() == 256,
        ensures
            final (code)@ == old(code)@,
            final (table)@.len() == 256,
            forall|c: int|
                0 <= c < 256 ==> final (table)@[c] == old(table)@[c] || (valid_entry(
                    root,
                    table_view(final (table)@),
                    c as u8,
                ) && bits_only(code_of(table_view(final (table)@), c as u8))),
            forall|c: u8| contains_char(*node, c) ==> valid_entry(
                root,
                table_view(final (table)@),
                c,
            ) && bits_only(code_of(table_view(final (table)@), c)),
        decreases *node,
    {
        match node {
            TreeNode::Leaf(l) => {
                proof {
                    if code@.len() == 0 {
                        assert(root == *node);
                    }
                    assert(code@.len() >= 1);
                }
                let recorded = code.clone();
                proof {
                    assert(recorded@ =~= code@);
                }
                table[l.character as usize] = Some(recorded);
                proof {
                    assert(table_view(table@)[l.character as int] == Some(code@));
                    assert(reaches(root, code@, TreeNode::Leaf(*l)));
                    assert(path_to_char(root, code@, l.character));
                    assert forall|c: u8| contains_char(*node, c) implies valid_entry(
                        root,
                        table_view(table@),
                        c,
                    ) && bits_only(code_of(table_view(table@), c)) by {
                        assert(c == l.character);
                    }
                }
            },
            TreeNode::Internal(n) => {
                let ghost p = code@;
                match &n.left {
                    Some(lb) => {
                        code.push(48);
                        proof {
                            lemma_reaches_extend(root, p, *node, 48);
                            assert(p.push(48).drop_last() =~= p);
                            assert(bits_only(code@)) by {
                                assert(forall|i: int|
                                    0 <= i < p.len() ==> code@[i] == p[i] && (p[i] == 48 || p[i]
                                        == 49));
                            }
                        }
                        Self::generate(&**lb, code, table, Ghost(root));
                        code.pop();
                        proof {
                            assert(code@ =~= p);
                        }
                    },
                    None => {
                        proof {
                            assert(false);
                        }
                    },
                }
                let ghost mid_table = table@;
                match &n.right {
                    Some(rb) => {
                        code.push(49);
                        proof {
                            lemma_reaches_extend(root, p, *node, 49);
                            assert(p.push(49).drop_last() =~= p);
                            assert(bits_only(code@)) by {
                                assert(forall|i: int|
                                    0 <= i < p.len() ==> code@[i] == p[i] && (p[i] == 48 || p[i]
                                        == 49));
                            }
                        }
                        Self::generate(&**rb, code, table, Ghost(root));
                        code.pop();
                        proof {
                            assert(code@ =~= p);
                        }
                    },
                    None => {
                        proof {
                            assert(false);
                        }
                    },
                }
                proof {
                    assert forall|c: u8| contains_char(*node, c) implies valid_entry(
                        root,
                        table_view(table@),
                        c,
                    ) && bits_only(code_of(table_view(table@), c)) by {
                        if n.right is Some && contains_char(*n.right.unwrap(), c) {
                        } else {
                            assert(contains_char(*n.left.unwrap(), c));
                            assert(valid_entry(root, table_view(mid_table), c));
                            assert(bits_only(code_of(table_view(mid_table), c)));
                        }
                    }
                }
            },
        }
    }

    /// Builds the tree and the code table, then replaces the encoded buffer
    /// with the concatenation of the codes of the text's bytes, in order.
    /// Decoding the new buffer against the new tree gives the text back: the
    /// codec round-trips on every text.
    pub fn encode(&mut self)
        requires
            old(self).wf(),
        ensures
            final (self).wf(),
            final (self).text@ == old(self).text@,
            final (self).decoded@ == old(self).decoded@,
            final (self).encoded@ == huffman_encode(
                table_view(final (self).char_encodings@),
                old(self).text@,
            ),
            huffman_decode(final (self).root, final (self).encoded@) == old(self).text@,
            bits_only(final (self).encoded@),
            old(self).text@.len() == 0 ==> final (self).encoded@.len() == 0,
    {
        self.char_encodings = Self::empty_table();
        let root = self.build_tree();
        proof {
            if self.text@.len() > 0 {
                lemma_count_byte_positive(self.text@, self.text@[0]);
                assert(self.text@.contains(self.text@[0]));
                assert(count_byte(self.text@, self.text@[0]) > 0);
                assert(self.char_frequencies@[self.text@[0] as int] > 0);
                assert(root is Some);
            }
        }
        match root {
            None => {
                proof {
                    if self.text@.len() > 0 {
                        assert(false);
                    }
                }
                self.root = None;
                self.encoded = Vec::new();
                proof {
                    assert(huffman_encode(table_view(self.char_encodings@), self.text@)
                        =~= Seq::<u8>::empty());
                }
            },
            Some(boxed) => {
                let is_leaf = match &*boxed {
                    TreeNode::Leaf(_) => true,
                    TreeNode::Internal(_) => false,
                };
                if is_leaf {
                    // a single occurring byte: give it the one-bit code `0`
                    let character = match &*boxed {
                        TreeNode::Leaf(l) => l.character,
                        TreeNode::Internal(_) => 0,
                    };
                    let mut single: Vec<u8> = Vec::new();
                    single.push(48);
                    self.char_encodings[character as usize] = Some(single);
                } else {
                    let mut code: Vec<u8> = Vec::new();
                    Self::generate(&*boxed, &mut code, &mut self.char_encodings, Ghost(*boxed));
                }
                let ghost tree = *boxed;
                let ghost tv = table_view(self.char_encodings@);
                proof {
                    assert forall|i: int| 0 <= i < self.text@.len() implies tv[#[trigger] self
                        .text@[i] as int] is Some && path_or_leaf(tree, tv, self.text@[i])
                        && bits_only(code_of(tv, self.text@[i])) by {
                        lemma_count_byte_positive(self.text@, self.text@[i]);
                        assert(self.text@.contains(self.text@[i]));
                        assert(contains_char(tree, self.text@[i]));
                        if tree is Leaf {
                            assert(self.text@[i] == tree->Leaf_0.character);
                            assert(code_of(tv, self.text@[i]) =~= seq![48u8]);
                        }
                    }
                }
                let n = self.text.len();
                let mut encoded: Vec<u8> = Vec::new();
                let mut i: usize = 0;
                while i < n
                    invariant
                        n == self.text@.len(),
                        i <= n,
                        self.char_encodings@.len() == 256,
                        tv == table_view(self.char_encodings@),
                        forall|k: int|
                            0 <= k < n ==> tv[#[trigger] self.text@[k] as int] is Some
                                && path_or_leaf(tree, tv, self.text@[k]) && bits_only(
                                code_of(tv, self.text@[k]),
                            ),
                        encoded@ == huffman_encode(tv, self.text@.take(i as int)),
                        bits_only(encoded@),
                    decreases n - i,
                {
                    let c = self.text[i];
                    match &self.char_encodings[c as usize] {
                        Some(code) => {
                            encoded.extend_from_slice(code.as_slice());
                            proof {
                                assert(self.text@.take(i + 1).drop_last() =~= self.text@.take(
                                    i as int,
                                ));
                                assert(self.text@.take(i + 1).last() == self.text@[i as int]);
                                assert(code_of(tv, c) == code@);
                                assert(encoded@ =~= huffman_encode(tv, self.text@.take(i + 1)));
                                assert(bits_only(encoded@));
                            }
                        },
                        None => {
                            proof {
                                assert(tv[c as int] is Some);
                                assert(false);
                            }
                        },
                    }
                    i = i + 1;
                }
                proof {
                    assert(self.text@.take(n as int) =~= self.text@);
                }
                self.root = Some(boxed);
                self.encoded = encoded;
                proof {
                    if tree is Internal {
                        lemma_huffman_round_trip(tree, tv, self.text@);
                    } else {
                        lemma_leaf_codes_length(tree, tv, self.text@);
                        assert(huffman_decode(self.root, self.encoded@) =~= self.text@);
                    }
                }
            },
        }
    }

    /// Replaces the decoded buffer with the decoding of the encoded buffer
    /// against the stored tree.
    pub fn decode(&mut self)
        requires
            old(self).wf(),
        ensures
            final (self).wf(),
            final (self).text@ == old(self).text@,
            final (self).encoded@ == old(self).encoded@,
            final (self).root == old(self).root,
            final (self).char_encodings@ == old(self).char_encodings@,
            final (self).decoded@ == huffman_decode(old(self).root, old(self).encoded@),
    {
        let n = self.encoded.len();
        let mut out: Vec<u8> = Vec::new();
        match &self.root {
            None => {},
            Some(boxed) => {
                match &**boxed {
                    TreeNode::Leaf(l) => {
                        let character = l.character;
                        let mut i: usize = 0;
                        while i < n
                            invariant
                                i <= n,
                                out@ =~= Seq::new(i as nat, |j: int| character),
                            decreases n - i,
                        {
                            out.push(character);
                            proof {
                                assert(out@ =~= Seq::new((i + 1) as nat, |j: int| character));
                            }
                            i = i + 1;
                        }
                        proof {
                            assert(out@ =~= huffman_decode(self.root, self.encoded@));
                        }
                    },
                    TreeNode::Internal(_) => {
                        let root_ref: &TreeNode = &**boxed;
                        let ghost tree = *root_ref;
                        let mut cursor: &TreeNode = root_ref;
                        let ghost bits = self.encoded@;
                        let mut i: usize = 0;
                        proof {
                            assert(bits.skip(0) =~= bits);
                            assert(out@ + walk(tree, tree, bits) =~= walk(tree, tree, bits));
                        }
                        while i < n
                            invariant
                                i <= n,
                                n == self.encoded@.len(),
                                bits == self.encoded@,
                                tree_wf(tree),
                                tree is Internal,
                                *root_ref == tree,
                                tree_wf(*cursor),
                                *cursor is Internal,
                                walk(tree, tree, bits) == out@ + walk(
                                    tree,
                                    *cursor,
                                    bits.skip(i as int),
                                ),
                            decreases n - i,
                        {
                            let bit = self.encoded[i];
                            let ghost cur_node = *cursor;
                            proof {
                                assert(bits.skip(i as int)[0] == bits[i as int]);
                                assert(bits.skip(i as int).drop_first() =~= bits.skip(i + 1));
                            }
                            match cursor {
                                TreeNode::Internal(nd) => {
                                    let link = if bit == 48 {
                                        &nd.left
                                    } else {
                                        &nd.right
                                    };
                                    match link {
                                        Some(bx) => {
                                            let next: &TreeNode = &**bx;
                                            proof {
                                                assert(child_for(*cursor, bit) == Some(*bx));
                                            }
                                            let ghost prev_out = out@;
                                            let ghost stepped = *next;
                                            match next {
                                                TreeNode::Leaf(l) => {
                                                    out.push(l.character);
                                                    cursor = root_ref;
                                                    proof {
                                                        assert(walk(
                                                            tree,
                                                            cur_node,
                                                            bits.skip(i as int),
                                                        ) == seq![l.character] + walk(
                                                            tree,
                                                            tree,
                                                            bits.skip(i + 1),
                                                        ));
                                                        assert(out@ =~= prev_out + seq![
                                                            l.character,
                                                        ]);
                                                        assert(out@ + walk(
                                                            tree,
                                                            tree,
                                                            bits.skip(i + 1),
                                                        ) =~= prev_out + (seq![l.character] + walk(
                                                            tree,
                                                            tree,
                                                            bits.skip(i + 1),
                                                        )));
                                                    }
                                                },
                                                TreeNode::Internal(_) => {
                                                    cursor = next;
                                                    proof {
                                                        assert(tree_wf(stepped));
                                                        assert(walk(
                                                            tree,
                                                            cur_node,
                                                            bits.skip(i as int),
                                                        ) == walk(
                                                            tree,
                                                            stepped,
                                                            bits.skip(i + 1),
                                                        ));
                                                    }
                                                },
                                            }
                                        },
                                        None => {
                                            proof {
                                                assert(false);
                                            }
                                        },
                                    }
                                },
                                TreeNode::Leaf(_) => {
                                    proof {
                                        assert(false);
                                    }
                                },
                            }
                            i = i + 1;
                        }
                        proof {
                            assert(bits.skip(n as int).len() == 0);
                            assert(out@ =~= walk(tree, tree, bits));
                        }
                    },
                }
            },
        }
        self.decoded = out;
    }

    /// A copy of the encoded bit string.
    pub fn compressed(&self) -> (r: Vec<u8>)
        ensures
            r@ == self.encoded@,
    {
        self.encoded.clone()
    }

    /// A copy of the decoded text.
    pub fn decompressed(&self) -> (r: Vec<u8>)
        ensures
            r@ == self.decoded@,
    {
        self.decoded.clone()
    }
}

/// Either a root path to a leaf with the byte, or — under a lone leaf — the
/// byte is the leaf's own.
pub open spec fn path_or_leaf(tree: TreeNode, tv: Seq<Option<Seq<u8>>>, c: u8) -> bool {
    match tree {
        TreeNode::Internal(n) => path_to_char(tree, code_of(tv, c), c),
        TreeNode::Leaf(l) => l.character == c && code_of(tv, c) =~= seq![48u8],
    }
}

/// Extending a root path by one branch reaches the chosen child.
proof fn lemma_reaches_extend(root: TreeNode, p: Seq<u8>, node: TreeNode, bit: u8)
    requires
        reaches(root, p, node),
        node is Internal,
        child_for(node, bit) is Some,
    ensures
        reaches(root, p.push(bit), *child_for(node, bit).unwrap()),
    decreases p.len(),
{
    let q = p.push(bit);
    let target = *child_for(node, bit).unwrap();
    if p.len() == 0 {
        assert(root == node);
        assert(q[0] == bit);
        assert(q.drop_first() =~= Seq::<u8>::empty());
        assert(reaches(target, q.drop_first(), target));
        assert(reaches(root, q, target));
    } else {
        assert(q[0] == p[0]);
        assert(q.drop_first() =~= p.drop_first().push(bit));
        lemma_reaches_extend(*child_for(root, p[0]).unwrap(), p.drop_first(), node, bit);
        assert(reaches(*child_for(root, q[0]).unwrap(), q.drop_first(), target));
        assert(reaches(root, q, target));
    }
}

/// Under a lone-leaf tree every code is the single bit `0`, so the encoding is
/// exactly one bit per byte of text, and every text byte is the leaf's byte.
proof fn lemma_leaf_codes_length(tree: TreeNode, tv: Seq<Option<Seq<u8>>>, text: Seq<u8>)
    requires
        tree is Leaf,
        forall|i: int|
            0 <= i < text.len() ==> tv[#[trigger] text[i] as int] is Some && path_or_leaf(
                tree,
                tv,
                text[i],
            ),
    ensures
        huffman_encode(tv, text).len() == text.len(),
        forall|i: int| 0 <= i < text.len() ==> text[i] == tree->Leaf_0.character,
    decreases text.len(),
{
    if text.len() > 0 {
        assert(forall|i: int|
            0 <= i < text.drop_last().len() ==> #[trigger] text.drop_last()[i] == text[i]);
        lemma_leaf_codes_length(tree, tv, text.drop_last());
        assert(code_of(tv, text.last()) =~= seq![48u8]);
    }
}

} // verus!
