//! Tree cells and the primitives that link and unlink them.
//!
//! Every node lives in a [`NodeArena`] and is named by its index there. A
//! parent owns its children through `left` and `right`; a child names its
//! parent through `top`, a back-reference used only to walk upward.
use vstd::prelude::*;

verus! {

/// One cell of a tree: a key, its value, the parent back-reference and the
/// two child links.
pub struct BinaryNode<V> {
    pub key: String,
    pub value: V,
    pub top: Option<usize>,
    pub left: Option<usize>,
    pub right: Option<usize>,
}

/// The owner of every node; links between nodes are indices into `nodes`.
pub struct NodeArena<V> {
    pub nodes: Vec<BinaryNode<V>>,
}

/// Every link of every node names a node of the arena.
pub open spec fn links_in_range<V>(s: Seq<BinaryNode<V>>) -> bool {
    forall|i: int|
        #![trigger s[i]]
        0 <= i < s.len() ==> {
            &&& (s[i].top matches Some(j) ==> j < s.len())
            &&& (s[i].left matches Some(j) ==> j < s.len())
            &&& (s[i].right matches Some(j) ==> j < s.len())
        }
}

/// `s` with the parent back-reference of node `i` replaced.
pub open spec fn set_top<V>(s: Seq<BinaryNode<V>>, i: int, t: Option<usize>) -> Seq<
    BinaryNode<V>,
> {
    s.update(
        i,
        BinaryNode { key: s[i].key, value: s[i].value, top: t, left: s[i].left, right: s[i].right },
    )
}

/// `s` with the left link of node `i` replaced.
pub open spec fn set_left<V>(s: Seq<BinaryNode<V>>, i: int, c: Option<usize>) -> Seq<
    BinaryNode<V>,
> {
    s.update(
        i,
        BinaryNode { key: s[i].key, value: s[i].value, top: s[i].top, left: c, right: s[i].right },
    )
}

/// `s` with the right link of node `i` replaced.
pub open spec fn set_right<V>(s: Seq<BinaryNode<V>>, i: int, c: Option<usize>) -> Seq<
    BinaryNode<V>,
> {
    s.update(
        i,
        BinaryNode { key: s[i].key, value: s[i].value, top: s[i].top, left: s[i].left, right: c },
    )
}

/// The arena after `child` takes the left slot of `parent`: the former left
/// child loses its back-reference, the new one points at `parent`.
pub open spec fn linked_left<V>(s: Seq<BinaryNode<V>>, parent: usize, child: Option<usize>) -> Seq<
    BinaryNode<V>,
> {
    let s1 = match s[parent as int].left {
        Some(l) => set_top(s, l as int, None),
        None => s,
    };
    let s2 = match child {
        Some(c) => set_top(s1, c as int, Some(parent)),
        None => s1,
    };
    set_left(s2, parent as int, child)
}

/// The arena after `child` takes the right slot of `parent`.
pub open spec fn linked_right<V>(s: Seq<BinaryNode<V>>, parent: usize, child: Option<usize>) -> Seq<
    BinaryNode<V>,
> {
    let s1 = match s[parent as int].right {
        Some(l) => set_top(s, l as int, None),
        None => s,
    };
    let s2 = match child {
        Some(c) => set_top(s1, c as int, Some(parent)),
        None => s1,
    };
    set_right(s2, parent as int, child)
}

/// The arena after node `n` is cut from its parent: the parent's slot that
/// holds `n` is emptied (its right slot, where `n` is not its left child).
pub open spec fn cut_from_top<V>(s: Seq<BinaryNode<V>>, n: usize) -> Seq<BinaryNode<V>> {
    match s[n as int].top {
        None => s,
        Some(p) => if s[p as int].left == Some(n) {
            linked_left(s, p, None)
        } else {
            linked_right(s, p, None)
        },
    }
}

/// Number of steps up the back-references from `top` until a node without a
/// parent, following at most `fuel` of them.
pub open spec fn depth_from<V>(s: Seq<BinaryNode<V>>, top: Option<usize>, fuel: nat) -> int
    decreases fuel,
{
    match top {
        None => 0,
        Some(p) => if fuel == 0 || p >= s.len() {
            0
        } else {
            1 + depth_from(s, s[p as int].top, (fuel - 1) as nat)
        },
    }
}

/// Height of the subtree rooted at `i` (-1 when empty), looking at most
/// `fuel` levels down.
pub open spec fn height_of<V>(s: Seq<BinaryNode<V>>, i: Option<usize>, fuel: nat) -> int
    decreases fuel,
{
    match i {
        None => -1,
        Some(j) => if fuel == 0 || j >= s.len() {
            -1
        } else {
            let l = height_of(s, s[j as int].left, (fuel - 1) as nat);
            let r = height_of(s, s[j as int].right, (fuel - 1) as nat);
            if l >= r {
                l + 1
            } else {
                r + 1
            }
        },
    }
}

/// Height of a subtree of the arena `s`; a path in a tree of `s.len()` nodes
/// has fewer than `s.len()` links, so that many levels always suffice.
pub open spec fn tree_height<V>(s: Seq<BinaryNode<V>>, i: Option<usize>) -> int {
    height_of(s, i, s.len())
}

/// Height of the subtree under node `n`: one more than its taller child's.
pub open spec fn node_height<V>(s: Seq<BinaryNode<V>>, n: BinaryNode<V>) -> int {
    let l = tree_height(s, n.left);
    let r = tree_height(s, n.right);
    1 + if l >= r {
        l
    } else {
        r
    }
}

/// The largest arena on which heights and depths are computed as `i32`.
pub const MAX_NODES: usize = 0x7fff_fffe;

pub proof fn lemma_height_bounds<V>(s: Seq<BinaryNode<V>>, i: Option<usize>, fuel: nat)
    ensures
        -1 <= height_of(s, i, fuel) < fuel,
    decreases fuel,
{
    if let Some(j) = i {
        if fuel > 0 && j < s.len() {
            lemma_height_bounds(s, s[j as int].left, (fuel - 1) as nat);
            lemma_height_bounds(s, s[j as int].right, (fuel - 1) as nat);
        }
    }
}

impl<V> BinaryNode<V> {
    /// A node with no parent and no children.
    pub fn new(key: String, value: V) -> (r: Self)
        ensures
            r.key == key,
            r.value == value,
            r.top is None,
            r.left is None,
            r.right is None,
    {
        BinaryNode { key, value, top: None, left: None, right: None }
    }

    /// Number of parent steps from this node up to the root of its tree.
    pub fn depth(&self, arena: &NodeArena<V>) -> (r: i32)
        requires
            arena.nodes.len() <= MAX_NODES,
        ensures
            r == depth_from(arena.nodes@, self.top, arena.nodes.len() as nat),
    {
        let n = arena.nodes.len();
        let mut d: i32 = 0;
        let mut cur = self.top;
        let mut fuel: usize = n;
        while fuel > 0
            invariant
                n == arena.nodes.len(),
                n <= MAX_NODES,
                fuel <= n,
                0 <= d <= n - fuel,
                d + depth_from(arena.nodes@, cur, fuel as nat) == depth_from(
                    arena.nodes@,
                    self.top,
                    n as nat,
                ),
            decreases fuel,
        {
            match cur {
                None => {
                    return d;
                },
                Some(p) => {
                    if p >= n {
                        return d;
                    }
                    d = d + 1;
                    cur = arena.nodes[p].top;
                    fuel = fuel - 1;
                },
            }
        }
        d
    }

    /// Height of the subtree under this node: 0 for a leaf.
    pub fn height(&self, arena: &NodeArena<V>) -> (r: i32)
        requires
            arena.nodes.len() <= MAX_NODES,
        ensures
            r == node_height(arena.nodes@, *self),
    {
        let l = self.left_height(arena);
        let r = self.right_height(arena);
        proof {
            lemma_height_bounds(arena.nodes@, self.left, arena.nodes.len() as nat);
            lemma_height_bounds(arena.nodes@, self.right, arena.nodes.len() as nat);
        }
        if l >= r {
            l + 1
        } else {
            r + 1
        }
    }

    /// Height of the left subtree, -1 when there is none.
    pub fn left_height(&self, arena: &NodeArena<V>) -> (r: i32)
        requires
            arena.nodes.len() <= MAX_NODES,
        ensures
            r == tree_height(arena.nodes@, self.left),
    {
        subtree_height(arena, self.left, arena.nodes.len())
    }

    /// Height of the right subtree, -1 when there is none.
    pub fn right_height(&self, arena: &NodeArena<V>) -> (r: i32)
        requires
            arena.nodes.len() <= MAX_NODES,
        ensures
            r == tree_height(arena.nodes@, self.right),
    {
        subtree_height(arena, self.right, arena.nodes.len())
    }
}

/// Height of the subtree rooted at `i`, looking at most `fuel` levels down.
pub fn subtree_height<V>(arena: &NodeArena<V>, i: Option<usize>, fuel: usize) -> (r: i32)
    requires
        fuel <= arena.nodes.len() <= MAX_NODES,
    ensures
        r == height_of(arena.nodes@, i, fuel as nat),
    decreases fuel,
{
    proof {
        lemma_height_bounds(arena.nodes@, i, fuel as nat);
    }
    match i {
        None => -1,
        Some(j) => {
            if fuel == 0 || j >= arena.nodes.len() {
                -1
            } else {
                let l = subtree_height(arena, arena.nodes[j].left, fuel - 1);
                let r = subtree_height(arena, arena.nodes[j].right, fuel - 1);
                if l >= r {
                    l + 1
                } else {
                    r + 1
                }
            }
        },
    }
}

impl<V> NodeArena<V> {
    /// Every link names a node of the arena.
    pub open spec fn inv(&self) -> bool {
        links_in_range(self.nodes@)
    }

    /// An arena with no node.
    pub fn new() -> (r: Self)
        ensures
            r.nodes@.len() == 0,
            r.inv(),
    {
        NodeArena { nodes: Vec::new() }
    }

    /// Number of nodes.
    pub fn len(&self) -> (r: usize)
        ensures
            r == self.nodes@.len(),
    {
        self.nodes.len()
    }

    /// Moves a node without links into the arena and returns its index.
    pub fn insert(&mut self, node: BinaryNode<V>) -> (r: usize)
        requires
            old(self).inv(),
            node.top is None,
            node.left is None,
            node.right is None,
        ensures
            final(self).inv(),
            r == old(self).nodes@.len(),
            final(self).nodes@ == old(self).nodes@.push(node),
    {
        let r = self.nodes.len();
        self.nodes.push(node);
        r
    }

    /// The node at index `i`.
    pub fn node(&self, i: usize) -> (r: &BinaryNode<V>)
        requires
            i < self.nodes@.len(),
        ensures
            *r == self.nodes@[i as int],
    {
        &self.nodes[i]
    }

    /// Number of owning handles on node `i`: the caller's index, and the
    /// parent's child slot once the node is linked under a parent.
    pub fn strong_count(&self, i: usize) -> (r: usize)
        requires
            i < self.nodes@.len(),
        ensures
            r == if self.nodes@[i as int].top is Some {
                2usize
            } else {
                1usize
            },
    {
        if self.nodes[i].top.is_some() {
            2
        } else {
            1
        }
    }

    /// Number of back-references that can name node `i`: one per occupied
    /// child slot.
    pub fn weak_count(&self, i: usize) -> (r: usize)
        requires
            i < self.nodes@.len(),
        ensures
            r == (if self.nodes@[i as int].left is Some {
                1usize
            } else {
                0usize
            }) + (if self.nodes@[i as int].right is Some {
                1usize
            } else {
                0usize
            }),
    {
        let mut c: usize = 0;
        if self.nodes[i].left.is_some() {
            c = c + 1;
        }
        if self.nodes[i].right.is_some() {
            c = c + 1;
        }
        c
    }
}

/// Puts `child` in the left slot of `parent` and returns the former left
/// child, whose back-reference is cleared.
pub fn link_left<V>(arena: &mut NodeArena<V>, parent: usize, child: Option<usize>) -> (r: Option<
    usize,
>)
    requires
        old(arena).inv(),
        parent < old(arena).nodes@.len(),
        child matches Some(c) ==> c < old(arena).nodes@.len(),
    ensures
        final(arena).inv(),
        r == old(arena).nodes@[parent as int].left,
        final(arena).nodes@ == linked_left(old(arena).nodes@, parent, child),
{
    let r = arena.nodes[parent].left;
    if let Some(l) = r {
        arena.nodes[l].top = None;
    }
    if let Some(c) = child {
        arena.nodes[c].top = Some(parent);
    }
    arena.nodes[parent].left = child;
    r
}

/// Puts `child` in the right slot of `parent` and returns the former right
/// child, whose back-reference is cleared.
pub fn link_right<V>(arena: &mut NodeArena<V>, parent: usize, child: Option<usize>) -> (r: Option<
    usize,
>)
    requires
        old(arena).inv(),
        parent < old(arena).nodes@.len(),
        child matches Some(c) ==> c < old(arena).nodes@.len(),
    ensures
        final(arena).inv(),
        r == old(arena).nodes@[parent as int].right,
        final(arena).nodes@ == linked_right(old(arena).nodes@, parent, child),
{
    let r = arena.nodes[parent].right;
    if let Some(l) = r {
        arena.nodes[l].top = None;
    }
    if let Some(c) = child {
        arena.nodes[c].top = Some(parent);
    }
    arena.nodes[parent].right = child;
    r
}

/// Whether `child` is the node in the left slot of `parent` (by identity).
pub fn is_left_child<V>(arena: &NodeArena<V>, parent: usize, child: usize) -> (r: bool)
    requires
        parent < arena.nodes@.len(),
    ensures
        r == (arena.nodes@[parent as int].left == Some(child)),
{
    match arena.nodes[parent].left {
        None => false,
        Some(l) => l == child,
    }
}

/// Cuts `node` from its parent and returns the parent, if it has one.
pub fn take_from_top<V>(arena: &mut NodeArena<V>, node: usize) -> (r: Option<usize>)
    requires
        old(arena).inv(),
        node < old(arena).nodes@.len(),
    ensures
        final(arena).inv(),
        r == old(arena).nodes@[node as int].top,
        final(arena).nodes@ == cut_from_top(old(arena).nodes@, node),
{
    match arena.nodes[node].top {
        None => None,
        Some(p) => {
            if is_left_child(arena, p, node) {
                link_left(arena, p, None);
            } else {
                link_right(arena, p, None);
            }
            Some(p)
        },
    }
}

} // verus!
