use vstd::prelude::*;

verus! {

/// A connection to a child in the Huffman tree, absent for leaves.
pub type Link = Option<Box<TreeNode>>;

/// One node of a Huffman tree: a leaf carrying a byte, or an internal node
/// joining two subtrees.
pub enum TreeNode {
    Leaf(HuffmanLeaf),
    Internal(HuffmanNode),
}

/// A leaf of the Huffman tree: the byte it stands for, and a childless inner
/// node that carries its frequency.
pub struct HuffmanLeaf {
    pub character: u8,
    pub node: HuffmanNode,
}

/// An internal node of the Huffman tree: its weight and its two children.
pub struct HuffmanNode {
    pub frequency: u64,
    pub left: Link,
    pub right: Link,
}

/// The behaviours every Huffman tree node offers. Each implementation says
/// through the spec members what its accessors hand out.
pub trait Node {
    /// The weight the node carries.
    spec fn spec_frequency(&self) -> u64;

    /// The byte the node stands for, where it stands for one.
    spec fn spec_character(&self) -> Option<u8>;

    /// The left child link.
    spec fn spec_left(&self) -> Link;

    /// The right child link.
    spec fn spec_right(&self) -> Link;

    /// Whether the node is a leaf.
    spec fn spec_is_leaf(&self) -> bool;

    fn get_frequency(&self) -> (r: u64)
        ensures
            r == self.spec_frequency(),
    ;

    fn get_character(&self) -> (r: Option<u8>)
        ensures
            r == self.spec_character(),
    ;

    fn get_left(&self) -> (r: &Link)
        ensures
            r == self.spec_left(),
    ;

    fn get_right(&self) -> (r: &Link)
        ensures
            r == self.spec_right(),
    ;

    fn is_leaf(&self) -> (r: bool)
        ensures
            r == self.spec_is_leaf(),
    ;
}

/// The weight of a tree node.
pub open spec fn freq_of(t: TreeNode) -> u64 {
    match t {
        TreeNode::Leaf(l) => l.node.frequency,
        TreeNode::Internal(n) => n.frequency,
    }
}

/// A well-shaped tree: every leaf is childless and every internal node has
/// both children.
pub open spec fn tree_wf(t: TreeNode) -> bool
    decreases t,
{
    match t {
        TreeNode::Leaf(l) => l.node.left is None && l.node.right is None,
        TreeNode::Internal(n) => {
            &&& n.left is Some
            &&& n.right is Some
            &&& tree_wf(*n.left.unwrap())
            &&& tree_wf(*n.right.unwrap())
        },
    }
}

/// Whether some leaf of the tree carries the byte `c`.
pub open spec fn contains_char(t: TreeNode, c: u8) -> bool
    decreases t,
{
    match t {
        TreeNode::Leaf(l) => l.character == c,
        TreeNode::Internal(n) => {
            ||| (n.left is Some && contains_char(*n.left.unwrap(), c))
            ||| (n.right is Some && contains_char(*n.right.unwrap(), c))
        },
    }
}

/// The child of an internal node selected by one path bit: `0` goes left,
/// anything else goes right. Leaves select nothing.
pub open spec fn child_for(t: TreeNode, bit: u8) -> Link {
    match t {
        TreeNode::Leaf(l) => None,
        TreeNode::Internal(n) => if bit == 48 {
            n.left
        } else {
            n.right
        },
    }
}

/// Whether the path `p`, read as ASCII `0`/`1` branch choices, leads from
/// `cur` through internal nodes to exactly the node `target`.
pub open spec fn reaches(cur: TreeNode, p: Seq<u8>, target: TreeNode) -> bool
    decreases p.len(),
{
    if p.len() == 0 {
        cur == target
    } else {
        &&& cur is Internal
        &&& child_for(cur, p[0]) is Some
        &&& reaches(*child_for(cur, p[0]).unwrap(), p.drop_first(), target)
    }
}

/// Whether the nonempty path `p` leads from `cur` to a leaf carrying `c`.
pub open spec fn path_to_char(cur: TreeNode, p: Seq<u8>, c: u8) -> bool {
    &&& p.len() >= 1
    &&& exists|l: HuffmanLeaf|
        #![auto]
        reaches(cur, p, TreeNode::Leaf(l)) && l.character == c
}

/// The greedy decoding walk: each bit steps from the cursor to a child; a
/// leaf emits its byte and resets the cursor to the root. A missing child
/// (never the case in a well-shaped tree) ends the walk.
pub open spec fn walk(root: TreeNode, cur: TreeNode, bits: Seq<u8>) -> Seq<u8>
    decreases bits.len(),
{
    if bits.len() == 0 {
        Seq::empty()
    } else {
        match child_for(cur, bits[0]) {
            None => Seq::empty(),
            Some(next) => {
                match *next {
                    TreeNode::Leaf(l) => seq![l.character] + walk(root, root, bits.drop_first()),
                    TreeNode::Internal(n) => walk(root, *next, bits.drop_first()),
                }
            },
        }
    }
}

/// Walking the bits of a root path consumes exactly that path, emits the
/// leaf's byte, and carries on from the root.
pub proof fn lemma_walk_path(root: TreeNode, cur: TreeNode, p: Seq<u8>, rest: Seq<u8>, c: u8)
    requires
        path_to_char(cur, p, c),
    ensures
        walk(root, cur, p + rest) == seq![c] + walk(root, root, rest),
    decreases p.len(),
{
    let bits = p + rest;
    assert(bits[0] == p[0]);
    let next = *child_for(cur, p[0]).unwrap();
    assert(bits.drop_first() =~= p.drop_first() + rest);
    if p.len() == 1 {
        let l = choose|l: HuffmanLeaf|
            #![auto]
            reaches(cur, p, TreeNode::Leaf(l)) && l.character == c;
        assert(reaches(next, p.drop_first(), TreeNode::Leaf(l)));
        assert(p.drop_first().len() == 0);
        assert(next == TreeNode::Leaf(l));
        assert(walk(root, cur, bits) == seq![c] + walk(root, root, bits.drop_first()));
        assert(rest =~= bits.drop_first());
    } else {
        let l = choose|l: HuffmanLeaf|
            #![auto]
            reaches(cur, p, TreeNode::Leaf(l)) && l.character == c;
        assert(reaches(next, p.drop_first(), TreeNode::Leaf(l)));
        assert(next is Internal) by {
            if next is Leaf {
                assert(p.drop_first().len() >= 1);
                assert(!(next is Internal));
                assert(!reaches(next, p.drop_first(), TreeNode::Leaf(l)));
            }
        }
        assert(path_to_char(next, p.drop_first(), c));
        lemma_walk_path(root, next, p.drop_first(), rest, c);
    }
}

impl HuffmanLeaf {
    /// A leaf for the byte `character` occurring `frequency` times.
    pub fn new(character: u8, frequency: u64) -> (r: Self)
        ensures
            r.character == character,
            r.node.frequency == frequency,
            r.node.left is None,
            r.node.right is None,
    {
        let mut node = HuffmanNode::new(None, None);
        node.frequency = frequency;
        HuffmanLeaf { character, node }
    }

    /// The byte this leaf stands for.
    pub fn get_character(&self) -> (r: u8)
        ensures
            r == self.character,
    {
        self.character
    }
}

impl Node for HuffmanLeaf {
    open spec fn spec_frequency(&self) -> u64 {
        self.node.frequency
    }

    open spec fn spec_character(&self) -> Option<u8> {
        Some(self.character)
    }

    open spec fn spec_left(&self) -> Link {
        self.node.left
    }

    open spec fn spec_right(&self) -> Link {
        self.node.right
    }

    open spec fn spec_is_leaf(&self) -> bool {
        true
    }

    fn get_frequency(&self) -> u64 {
        self.node.frequency
    }

    fn get_character(&self) -> Option<u8> {
        Some(self.character)
    }

    fn get_left(&self) -> &Link {
        &self.node.left
    }

    fn get_right(&self) -> &Link {
        &self.node.right
    }

    fn is_leaf(&self) -> bool {
        true
    }
}

impl HuffmanNode {
    /// A childless node of weight zero when both links are absent; otherwise
    /// an internal node over the two children, weighing as much as both
    /// together (capped at the largest representable weight).
    pub fn new(left_node: Link, right_node: Link) -> (r: Self)
        requires
            left_node is Some <==> right_node is Some,
        ensures
            left_node is None ==> r == (HuffmanNode { frequency: 0, left: None, right: None }),
            left_node is Some ==> r.left == left_node && r.right == right_node && r.frequency == {
                let sum = freq_of(*left_node.unwrap()) + freq_of(*right_node.unwrap());
                if sum <= u64::MAX {
                    sum as u64
                } else {
                    u64::MAX
                }
            },
    {
        match (left_node, right_node) {
            (None, None) => HuffmanNode { frequency: 0, left: None, right: None },
            (Some(left_node), Some(right_node)) => {
                let fl = match &*left_node {
                    TreeNode::Leaf(l) => l.node.frequency,
                    TreeNode::Internal(n) => n.frequency,
                };
                let fr = match &*right_node {
                    TreeNode::Leaf(l) => l.node.frequency,
                    TreeNode::Internal(n) => n.frequency,
                };
                let frequency: u64 = if fl > u64::MAX - fr {
                    u64::MAX
                } else {
                    fl + fr
                };
                HuffmanNode { frequency, left: Some(left_node), right: Some(right_node) }
            },
            _ => {
                // excluded by the precondition
                proof {
                    assert(false);
                }
                HuffmanNode { frequency: 0, left: None, right: None }
            },
        }
    }
}

impl Node for HuffmanNode {
    open spec fn spec_frequency(&self) -> u64 {
        self.frequency
    }

    open spec fn spec_character(&self) -> Option<u8> {
        None
    }

    open spec fn spec_left(&self) -> Link {
        self.left
    }

    open spec fn spec_right(&self) -> Link {
        self.right
    }

    open spec fn spec_is_leaf(&self) -> bool {
        false
    }

    fn get_frequency(&self) -> u64 {
        self.frequency
    }

    fn get_character(&self) -> Option<u8> {
        None
    }

    fn get_left(&self) -> &Link {
        &self.left
    }

    fn get_right(&self) -> &Link {
        &self.right
    }

    fn is_leaf(&self) -> bool {
        false
    }
}

} // verus!
