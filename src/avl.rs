//! The AVL variant: ordered placement followed by a rebalancing pass that
//! walks from the new leaf up to the root.
use crate::binary::{
    is_left_child, lemma_height_bounds, link_left, link_right, linked_left, linked_right,
    links_in_range, set_left,
    set_right, set_top, tree_height, BinaryNode, NodeArena, MAX_NODES,
};
use crate::key::{
    goes_left, places_left, key_bytes, key_cmp, lemma_key_cmp_zero, lemma_lex_cmp_antisym,
    lemma_lex_cmp_refl, lemma_lex_cmp_trans,
};
use crate::search::{height_at, set_value, SearchTree};
use vstd::pervasive::cloned;
use vstd::prelude::*;

verus! {

/// The links around node `i` agree: its parent holds it in a child slot, its
/// children name it as their parent and rank below it, and its two children
/// differ. Only the root has no parent.
pub open spec fn linked_well<V>(s: Seq<BinaryNode<V>>, root: Option<usize>, ranks: Seq<nat>, i: int) -> bool {
    &&& (s[i].top is None ==> root == Some(i as usize))
    &&& (s[i].top matches Some(p) ==> (s[p as int].left == Some(i as usize) || s[p as int].right
        == Some(i as usize)))
    &&& (s[i].left matches Some(c) ==> s[c as int].top == Some(i as usize) && ranks[c as int]
        < ranks[i])
    &&& (s[i].right matches Some(c) ==> s[c as int].top == Some(i as usize) && ranks[c as int]
        < ranks[i])
    &&& (s[i].left matches Some(a) ==> s[i].right != Some(a))
}

/// The arena `s` holds exactly one tree, rooted at `root`. The ranks fall
/// strictly from parent to child, so no chain of links is a cycle.
pub open spec fn tree_wf<V>(s: Seq<BinaryNode<V>>, root: Option<usize>, ranks: Seq<nat>) -> bool {
    &&& s.len() <= MAX_NODES
    &&& ranks.len() == s.len()
    &&& links_in_range(s)
    &&& (root is None <==> s.len() == 0)
    &&& (root matches Some(r) ==> r < s.len() && s[r as int].top is None)
    &&& forall|i: int| 0 <= i < s.len() ==> #[trigger] linked_well(s, root, ranks, i)
}

/// The keys allowed in a subtree: from the first bound up to the second,
/// where each is set.
pub type KeyRange = (Option<Seq<char>>, Option<Seq<char>>);

/// Key `k` lies in the range `r`.
pub open spec fn in_range(r: KeyRange, k: Seq<char>) -> bool {
    &&& (r.0 matches Some(lo) ==> key_cmp(lo, k) <= 0)
    &&& (r.1 matches Some(hi) ==> key_cmp(k, hi) <= 0)
}

/// Node `i` holds a key of its range; the root's range is unbounded, a left
/// child's range is capped by its parent's key, and a right child's range
/// starts at it.
pub open spec fn ordered_well<V>(s: Seq<BinaryNode<V>>, bs: Seq<KeyRange>, i: int) -> bool {
    &&& in_range(bs[i], s[i].key@)
    &&& (s[i].top is None ==> bs[i] == (None::<Seq<char>>, None::<Seq<char>>))
    &&& (s[i].left matches Some(c) ==> bs[c as int] == (bs[i].0, Some(s[i].key@)))
    &&& (s[i].right matches Some(c) ==> bs[c as int] == (Some(s[i].key@), bs[i].1))
}

/// No two nodes hold the same key.
pub open spec fn distinct_keys<V>(s: Seq<BinaryNode<V>>) -> bool {
    forall|i: int, j: int|
        0 <= i < s.len() && 0 <= j < s.len() && i != j ==> #[trigger] s[i].key@ != #[trigger] s[
            j].key@
}

/// Each key lies in the range that its place gives it.
pub open spec fn tree_ordered<V>(s: Seq<BinaryNode<V>>, bs: Seq<KeyRange>) -> bool {
    &&& bs.len() == s.len()
    &&& forall|i: int| 0 <= i < s.len() ==> #[trigger] ordered_well(s, bs, i)
}

/// `a` and `b` hold the same keys and values at the same indices.
pub open spec fn same_contents<V>(a: Seq<BinaryNode<V>>, b: Seq<BinaryNode<V>>) -> bool {
    &&& a.len() == b.len()
    &&& forall|i: int|
        #![trigger a[i]]
        #![trigger b[i]]
        0 <= i < a.len() ==> a[i].key == b[i].key && a[i].value == b[i].value
}

proof fn lemma_same_contents_trans<V>(a: Seq<BinaryNode<V>>, b: Seq<BinaryNode<V>>, c: Seq<BinaryNode<V>>)
    requires
        same_contents(a, b),
        same_contents(b, c),
    ensures
        same_contents(a, c),
{
    assert forall|i: int| 0 <= i < a.len() implies a[i].key == c[i].key && a[i].value == c[i].value by {
        assert(b[i].key == c[i].key);
    }
}

/// The restructuring that the rebalancing pass applies at one node.
pub enum TranType {
    /// Right-heavy, and the right child leans right or not at all.
    SingleLeft,
    /// Left-heavy, and the left child leans left or not at all.
    SingleRight,
    /// Right-heavy, and the right child leans left.
    DoubleLeft,
    /// Left-heavy, and the left child leans right.
    DoubleRight,
    /// Balanced: no change.
    Keep,
}

/// Left height minus right height of node `i`.
pub open spec fn balance_factor<V>(s: Seq<BinaryNode<V>>, i: int) -> int {
    tree_height(s, s[i].left) - tree_height(s, s[i].right)
}

/// Every node's subtrees differ in height by at most one.
pub open spec fn balanced<V>(s: Seq<BinaryNode<V>>) -> bool {
    forall|i: int| 0 <= i < s.len() ==> -1 <= #[trigger] balance_factor(s, i) <= 1
}

/// The restructuring that node `i` calls for.
pub open spec fn tran_type_of<V>(s: Seq<BinaryNode<V>>, i: int) -> TranType {
    if balance_factor(s, i) > 1 {
        if balance_factor(s, s[i].left.unwrap() as int) >= 0 {
            TranType::SingleRight
        } else {
            TranType::DoubleRight
        }
    } else if balance_factor(s, i) < -1 {
        if balance_factor(s, s[i].right.unwrap() as int) <= 0 {
            TranType::SingleLeft
        } else {
            TranType::DoubleLeft
        }
    } else {
        TranType::Keep
    }
}

/// Chooses the restructuring for node `i` from the heights of its subtrees
/// and of its heavier child's subtrees.
pub fn tran_type<V>(arena: &NodeArena<V>, i: usize) -> (r: TranType)
    requires
        links_in_range(arena.nodes@),
        i < arena.nodes@.len() <= MAX_NODES,
    ensures
        r == tran_type_of(arena.nodes@, i as int),
{
    let node = &arena.nodes[i];
    let lh = node.left_height(arena);
    let rh = node.right_height(arena);
    proof {
        lemma_height_bounds(arena.nodes@, node.left, arena.nodes@.len());
        lemma_height_bounds(arena.nodes@, node.right, arena.nodes@.len());
    }
    if lh - rh > 1 {
        let l = &arena.nodes[node.left.unwrap()];
        if l.left_height(arena) >= l.right_height(arena) {
            TranType::SingleRight
        } else {
            TranType::DoubleRight
        }
    } else if rh - lh > 1 {
        let r = &arena.nodes[node.right.unwrap()];
        if r.right_height(arena) >= r.left_height(arena) {
            TranType::SingleLeft
        } else {
            TranType::DoubleLeft
        }
    } else {
        TranType::Keep
    }
}

/// Follows left links from node `i` to the end.
fn leftmost_index<V>(arena: &NodeArena<V>, i: usize) -> (r: usize)
    requires
        i < arena.nodes@.len(),
    ensures
        r == leftmost(arena.nodes@, i, arena.nodes@.len()),
{
    let n = arena.nodes.len();
    let mut cur = i;
    let mut fuel: usize = n;
    while fuel > 0
        invariant
            n == arena.nodes@.len(),
            cur < n,
            fuel <= n,
            leftmost(arena.nodes@, cur, fuel as nat) == leftmost(arena.nodes@, i, n as nat),
        decreases fuel,
    {
        match arena.nodes[cur].left {
            None => {
                return cur;
            },
            Some(l) => {
                if l >= n {
                    return cur;
                }
                cur = l;
            },
        }
        fuel = fuel - 1;
    }
    cur
}

/// Follows right links from node `i` to the end.
fn rightmost_index<V>(arena: &NodeArena<V>, i: usize) -> (r: usize)
    requires
        i < arena.nodes@.len(),
    ensures
        r == rightmost(arena.nodes@, i, arena.nodes@.len()),
{
    let n = arena.nodes.len();
    let mut cur = i;
    let mut fuel: usize = n;
    while fuel > 0
        invariant
            n == arena.nodes@.len(),
            cur < n,
            fuel <= n,
            rightmost(arena.nodes@, cur, fuel as nat) == rightmost(arena.nodes@, i, n as nat),
        decreases fuel,
    {
        match arena.nodes[cur].right {
            None => {
                return cur;
            },
            Some(l) => {
                if l >= n {
                    return cur;
                }
                cur = l;
            },
        }
        fuel = fuel - 1;
    }
    cur
}

/// A self-balancing search tree whose nodes live in an arena.
pub struct AVLTree<V> {
    arena: NodeArena<V>,
    root: Option<usize>,
    ranks: Ghost<Seq<nat>>,
    bounds: Ghost<Seq<KeyRange>>,
}

impl<V> AVLTree<V> {
    /// The arena holds one tree rooted at `root`, with consistent links.
    pub closed spec fn wf(&self) -> bool {
        tree_wf(self.arena.nodes@, self.root, self.ranks@)
    }

    /// Keys are in search-tree order.
    pub closed spec fn ordered(&self) -> bool {
        tree_ordered(self.arena.nodes@, self.bounds@)
    }

    /// The ranks that order parents above children.
    pub closed spec fn rank_view(&self) -> Seq<nat> {
        self.ranks@
    }

    /// The arena's nodes, by index.
    pub closed spec fn nodes(&self) -> Seq<BinaryNode<V>> {
        self.arena.nodes@
    }

    /// The root's index, `None` when the tree is empty.
    pub closed spec fn root_index(&self) -> Option<usize> {
        self.root
    }

    /// An empty tree.
    pub fn new() -> (r: Self)
        ensures
            r.wf(),
            r.ordered(),
            r.nodes().len() == 0,
            r.root_index() is None,
    {
        AVLTree {
            arena: NodeArena::new(),
            root: None,
            ranks: Ghost(Seq::empty()),
            bounds: Ghost(Seq::empty()),
        }
    }

    /// Number of nodes in the tree.
    pub fn len(&self) -> (r: usize)
        ensures
            r == self.nodes().len(),
    {
        self.arena.nodes.len()
    }

    /// The value at the end of the left descent from the root: that of the
    /// smallest key.
    pub fn min_val(&self) -> (r: Option<&V>)
        requires
            self.wf(),
        ensures
            match self.root_index() {
                None => r is None,
                Some(rt) => r matches Some(v) && *v == self.nodes()[leftmost(
                    self.nodes(),
                    rt,
                    self.nodes().len(),
                ) as int].value,
            },
    {
        match self.root {
            None => None,
            Some(rt) => {
                proof {
                    lemma_extremes_in_range(self.arena.nodes@, rt, self.arena.nodes@.len());
                }
                let i = leftmost_index(&self.arena, rt);
                Some(&self.arena.nodes[i].value)
            },
        }
    }

    /// A copy of the value of the smallest key.
    pub fn min_val_clone(&self) -> (r: Option<V>) where V: Clone
        requires
            self.wf(),
        ensures
            match self.root_index() {
                None => r is None,
                Some(rt) => r matches Some(v) && cloned(
                    self.nodes()[leftmost(self.nodes(), rt, self.nodes().len()) as int].value,
                    v,
                ),
            },
    {
        match self.min_val() {
            None => None,
            Some(v) => Some(v.clone()),
        }
    }

    /// The value at the end of the right descent from the root: that of the
    /// greatest key.
    pub fn max_val(&self) -> (r: Option<&V>)
        requires
            self.wf(),
        ensures
            match self.root_index() {
                None => r is None,
                Some(rt) => r matches Some(v) && *v == self.nodes()[rightmost(
                    self.nodes(),
                    rt,
                    self.nodes().len(),
                ) as int].value,
            },
    {
        match self.root {
            None => None,
            Some(rt) => {
                proof {
                    lemma_extremes_in_range(self.arena.nodes@, rt, self.arena.nodes@.len());
                }
                let i = rightmost_index(&self.arena, rt);
                Some(&self.arena.nodes[i].value)
            },
        }
    }

    /// A copy of the value of the greatest key.
    pub fn max_val_clone(&self) -> (r: Option<V>) where V: Clone
        requires
            self.wf(),
        ensures
            match self.root_index() {
                None => r is None,
                Some(rt) => r matches Some(v) && cloned(
                    self.nodes()[rightmost(self.nodes(), rt, self.nodes().len()) as int].value,
                    v,
                ),
            },
    {
        match self.max_val() {
            None => None,
            Some(v) => Some(v.clone()),
        }
    }

    /// Height of the tree: -1 when empty, 0 for a single node.
    pub fn height(&self) -> (r: i32)
        requires
            self.wf(),
        ensures
            r == height_at(self.nodes(), self.root_index()),
    {
        match self.root {
            None => -1,
            Some(rt) => self.arena.nodes[rt].height(&self.arena),
        }
    }

    /// Single rotation at `k1`, whose left child `k2` takes its place.
    fn rotate_right(&mut self, k1: usize)
        requires
            old(self).wf(),
            k1 < old(self).arena.nodes@.len(),
            old(self).arena.nodes@[k1 as int].left is Some,
        ensures
            final(self).wf(),
            same_contents(old(self).arena.nodes@, final(self).arena.nodes@),
            rotated_right(old(self).arena.nodes@, final(self).arena.nodes@, k1),
            old(self).ordered() ==> final(self).ordered(),
            old(self).root == Some(k1) ==> final(self).root == old(self).arena.nodes@[k1 as int].left,
            old(self).root != Some(k1) ==> final(self).root == old(self).root,
            (final(self).arena.nodes@, final(self).root) == rot_right(
                old(self).arena.nodes@,
                old(self).root,
                k1,
            ),
    {
        let ghost s0 = self.arena.nodes@;
        let ghost r0 = self.ranks@;
        let ghost root0 = self.root;
        proof {
            assert(linked_well(s0, root0, r0, k1 as int));
        }
        let k2 = self.arena.nodes[k1].left.unwrap();
        let y = self.arena.nodes[k2].right;
        let top = self.arena.nodes[k1].top;
        let was_left = match top {
            Some(t) => is_left_child(&self.arena, t, k1),
            None => false,
        };
        proof {
            assert(linked_well(s0, root0, r0, k2 as int));
            if let Some(t) = top {
                assert(linked_well(s0, root0, r0, t as int));
            }
        }
        self.arena.nodes[k1].left = y;
        let ghost s1 = self.arena.nodes@;
        proof {
            assert(s1 =~= set_left(s0, k1 as int, y));
        }
        if let Some(yy) = y {
            self.arena.nodes[yy].top = Some(k1);
            proof {
                assert(self.arena.nodes@ =~= set_top(s1, yy as int, Some(k1)));
            }
        }
        let ghost s2 = self.arena.nodes@;
        self.arena.nodes[k2].right = Some(k1);
        let ghost s3 = self.arena.nodes@;
        proof {
            assert(s3 =~= set_right(s2, k2 as int, Some(k1)));
        }
        self.arena.nodes[k1].top = Some(k2);
        let ghost s4 = self.arena.nodes@;
        proof {
            assert(s4 =~= set_top(s3, k1 as int, Some(k2)));
        }
        self.replace_parent(top, was_left, k2);
        proof {
            let rk = raised_ranks(r0, k2, k1);
            lemma_rotated_right_wf(s0, root0, r0, self.arena.nodes@, self.root, k1);
            self.ranks = Ghost(rk);
            if tree_ordered(s0, self.bounds@) {
                lemma_rotated_right_ordered(s0, root0, r0, self.bounds@, self.arena.nodes@, k1);
            }
            self.bounds = Ghost(rotated_bounds(s0, self.bounds@, k1, k2));
        }
    }

    /// Single rotation at `k1`, whose right child `k2` takes its place.
    fn rotate_left(&mut self, k1: usize)
        requires
            old(self).wf(),
            k1 < old(self).arena.nodes@.len(),
            old(self).arena.nodes@[k1 as int].right is Some,
        ensures
            final(self).wf(),
            same_contents(old(self).arena.nodes@, final(self).arena.nodes@),
            rotated_left(old(self).arena.nodes@, final(self).arena.nodes@, k1),
            old(self).ordered() ==> final(self).ordered(),
            old(self).root == Some(k1) ==> final(self).root == old(self).arena.nodes@[k1 as int].right,
            old(self).root != Some(k1) ==> final(self).root == old(self).root,
            (final(self).arena.nodes@, final(self).root) == rot_left(
                old(self).arena.nodes@,
                old(self).root,
                k1,
            ),
    {
        let ghost s0 = self.arena.nodes@;
        let ghost r0 = self.ranks@;
        let ghost root0 = self.root;
        proof {
            assert(linked_well(s0, root0, r0, k1 as int));
        }
        let k2 = self.arena.nodes[k1].right.unwrap();
        let y = self.arena.nodes[k2].left;
        let top = self.arena.nodes[k1].top;
        let was_left = match top {
            Some(t) => is_left_child(&self.arena, t, k1),
            None => false,
        };
        proof {
            assert(linked_well(s0, root0, r0, k2 as int));
            if let Some(t) = top {
                assert(linked_well(s0, root0, r0, t as int));
            }
        }
        self.arena.nodes[k1].right = y;
        let ghost s1 = self.arena.nodes@;
        proof {
            assert(s1 =~= set_right(s0, k1 as int, y));
        }
        if let Some(yy) = y {
            self.arena.nodes[yy].top = Some(k1);
            proof {
                assert(self.arena.nodes@ =~= set_top(s1, yy as int, Some(k1)));
            }
        }
        let ghost s2 = self.arena.nodes@;
        self.arena.nodes[k2].left = Some(k1);
        let ghost s3 = self.arena.nodes@;
        proof {
            assert(s3 =~= set_left(s2, k2 as int, Some(k1)));
        }
        self.arena.nodes[k1].top = Some(k2);
        let ghost s4 = self.arena.nodes@;
        proof {
            assert(s4 =~= set_top(s3, k1 as int, Some(k2)));
        }
        self.replace_parent(top, was_left, k2);
        proof {
            let rk = raised_ranks(r0, k2, k1);
            lemma_rotated_left_wf(s0, root0, r0, self.arena.nodes@, self.root, k1);
            self.ranks = Ghost(rk);
            if tree_ordered(s0, self.bounds@) {
                lemma_rotated_left_ordered(s0, root0, r0, self.bounds@, self.arena.nodes@, k1);
            }
            self.bounds = Ghost(rotated_bounds(s0, self.bounds@, k1, k2));
        }
    }

    /// Applies the restructuring `t` chosen for node `i`.
    fn adjust(&mut self, i: usize, t: TranType)
        requires
            old(self).wf(),
            i < old(self).arena.nodes@.len(),
            t == tran_type_of(old(self).arena.nodes@, i as int),
        ensures
            final(self).wf(),
            same_contents(old(self).arena.nodes@, final(self).arena.nodes@),
            old(self).ordered() ==> final(self).ordered(),
            t == TranType::Keep ==> *final(self) == *old(self),
            (final(self).arena.nodes@, final(self).root) == adjusted(
                old(self).arena.nodes@,
                old(self).root,
                i,
            ),
    {
        let ghost s0 = self.arena.nodes@;
        proof {
            lemma_height_bounds(s0, s0[i as int].left, s0.len());
            lemma_height_bounds(s0, s0[i as int].right, s0.len());
        }
        match t {
            TranType::SingleRight => {
                self.rotate_right(i);
            },
            TranType::DoubleRight => {
                let l = self.arena.nodes[i].left.unwrap();
                proof {
                    lemma_height_bounds(s0, s0[l as int].left, s0.len());
                    lemma_height_bounds(s0, s0[l as int].right, s0.len());
                    assert(linked_well(s0, self.root, self.ranks@, l as int));
                }
                self.rotate_left(l);
                let ghost s1 = self.arena.nodes@;
                self.rotate_right(i);
                proof {
                    lemma_same_contents_trans(s0, s1, self.arena.nodes@);
                }
            },
            TranType::SingleLeft => {
                self.rotate_left(i);
            },
            TranType::DoubleLeft => {
                let r = self.arena.nodes[i].right.unwrap();
                proof {
                    lemma_height_bounds(s0, s0[r as int].left, s0.len());
                    lemma_height_bounds(s0, s0[r as int].right, s0.len());
                    assert(linked_well(s0, self.root, self.ranks@, r as int));
                }
                self.rotate_right(r);
                let ghost s1 = self.arena.nodes@;
                self.rotate_left(i);
                proof {
                    lemma_same_contents_trans(s0, s1, self.arena.nodes@);
                }
            },
            TranType::Keep => {},
        }
    }

    /// The rebalancing pass: from node `start` up to the root, each node on
    /// the way is examined and restructured where it is out of balance. On a
    /// balanced tree every node is kept as it is.
    pub fn rebalance(&mut self, start: usize)
        requires
            old(self).wf(),
            start < old(self).nodes().len(),
        ensures
            final(self).wf(),
            same_contents(old(self).nodes(), final(self).nodes()),
            old(self).ordered() ==> final(self).ordered(),
            balanced(old(self).nodes()) ==> *final(self) == *old(self),
            (final(self).nodes(), final(self).root_index()) == pass(
                old(self).nodes(),
                old(self).root_index(),
                start,
                old(self).nodes().len() as nat,
            ),
    {
        let ghost t0 = *self;
        let n = self.arena.nodes.len();
        let mut cur = start;
        let mut fuel: usize = n;
        while fuel > 0
            invariant
                self.wf(),
                n == self.arena.nodes@.len(),
                cur < n,
                same_contents(t0.arena.nodes@, self.arena.nodes@),
                t0.ordered() ==> self.ordered(),
                balanced(t0.arena.nodes@) ==> *self == t0,
                pass(self.arena.nodes@, self.root, cur, fuel as nat) == pass(
                    t0.arena.nodes@,
                    t0.root,
                    start,
                    n as nat,
                ),
            decreases fuel,
        {
            let top = self.arena.nodes[cur].top;
            let t = tran_type(&self.arena, cur);
            proof {
                if balanced(t0.arena.nodes@) {
                    assert(-1 <= balance_factor(self.arena.nodes@, cur as int) <= 1);
                }
            }
            let ghost s1 = self.arena.nodes@;
            self.adjust(cur, t);
            proof {
                lemma_same_contents_trans(t0.arena.nodes@, s1, self.arena.nodes@);
            }
            match top {
                Some(p) => {
                    cur = p;
                    fuel = fuel - 1;
                },
                None => {
                    fuel = 0;
                },
            }
        }
    }

    /// Puts `new_parent` where the node it replaces stood: under `top`, in
    /// the left slot when `was_left` and the right one otherwise, with its
    /// back-reference set to `top`; or at the root when there is no `top`.
    fn replace_parent(&mut self, top: Option<usize>, was_left: bool, new_parent: usize)
        requires
            links_in_range(old(self).arena.nodes@),
            top matches Some(t) ==> t < old(self).arena.nodes@.len(),
            new_parent < old(self).arena.nodes@.len(),
        ensures
            final(self).ranks == old(self).ranks,
            final(self).bounds == old(self).bounds,
            (final(self).arena.nodes@, final(self).root) == relinked(
                old(self).arena.nodes@,
                old(self).root,
                top,
                was_left,
                new_parent,
            ),
    {
        self.arena.nodes[new_parent].top = top;
        match top {
            Some(t) => {
                if was_left {
                    self.arena.nodes[t].left = Some(new_parent);
                } else {
                    self.arena.nodes[t].right = Some(new_parent);
                }
            },
            None => {
                self.root = Some(new_parent);
            },
        }
    }
}

impl<V> SearchTree<V> for AVLTree<V> {
    open spec fn tree_nodes(&self) -> Seq<BinaryNode<V>> {
        self.nodes()
    }

    open spec fn tree_root(&self) -> Option<usize> {
        self.root_index()
    }

    open spec fn valid(&self) -> bool {
        self.wf()
    }

    open spec fn in_order(&self) -> bool {
        self.ordered()
    }

    open spec fn placed(&self, before: Self, node: BinaryNode<V>) -> bool {
        (self.nodes(), self.root_index()) == inserted(
            before.nodes(),
            before.root_index(),
            before.rank_view(),
            node,
        )
    }

    proof fn lemma_valid_bounds(&self) {
    }

    fn root(&self) -> (r: Option<usize>) {
        self.root
    }

    fn arena(&self) -> (r: &NodeArena<V>) {
        &self.arena
    }

    /// Descends from the root, going left at nodes whose key is greater than
    /// or equal to the new one and right otherwise, hangs the node where the
    /// descent ends, then runs the rebalancing pass from it.
    fn add_node(&mut self, node: BinaryNode<V>) {
        let ghost s0 = self.arena.nodes@;
        let ghost r0 = self.ranks@;
        let ghost b0 = self.bounds@;
        let ghost nd = node;
        match self.root {
            None => {
                let idx = self.arena.insert(node);
                self.root = Some(idx);
                proof {
                    self.ranks = Ghost(seq![0nat]);
                    self.bounds = Ghost(seq![(None::<Seq<char>>, None::<Seq<char>>)]);
                    assert(ordered_well(self.arena.nodes@, self.bounds@, 0));
                    assert(linked_well(self.arena.nodes@, self.root, self.ranks@, 0));
                }
            },
            Some(rt) => {
                let mut cur = rt;
                let mut to_left = false;
                proof {
                    if tree_ordered(s0, b0) {
                        assert(ordered_well(s0, b0, rt as int));
                    }
                }
                loop
                    invariant
                        self.wf(),
                        self.arena.nodes@ == s0,
                        self.ranks@ == r0,
                        cur < s0.len(),
                        self.bounds@ == b0,
                        tree_ordered(s0, b0) ==> in_range(b0[cur as int], node.key@),
                        place(s0, r0, cur, node.key@) == place(s0, r0, rt, node.key@),
                    ensures
                        (cur, to_left) == place(s0, r0, rt, node.key@),
                        cur < s0.len(),
                        to_left ==> s0[cur as int].left is None,
                        !to_left ==> s0[cur as int].right is None,
                        tree_ordered(s0, b0) ==> in_range(
                            slot_range(s0, b0, cur, to_left),
                            node.key@,
                        ),
                    decreases r0[cur as int],
                {
                    proof {
                        assert(linked_well(s0, self.root, r0, cur as int));
                        if tree_ordered(s0, b0) {
                            assert(ordered_well(s0, b0, cur as int));
                        }
                        lemma_lex_cmp_antisym(key_bytes(s0[cur as int].key@), key_bytes(node.key@));
                    }
                    if goes_left(&self.arena.nodes[cur].key, &node.key) {
                        match self.arena.nodes[cur].left {
                            Some(c) => {
                                cur = c;
                            },
                            None => {
                                to_left = true;
                                break ;
                            },
                        }
                    } else {
                        match self.arena.nodes[cur].right {
                            Some(c) => {
                                cur = c;
                            },
                            None => {
                                to_left = false;
                                break ;
                            },
                        }
                    }
                }
                let ghost key = node.key;
                let ghost value = node.value;
                let idx = self.arena.insert(node);
                if to_left {
                    link_left(&mut self.arena, cur, Some(idx));
                } else {
                    link_right(&mut self.arena, cur, Some(idx));
                }
                proof {
                    let s = self.arena.nodes@;
                    assert forall|i: int| 0 <= i < s0.len() && i != cur implies #[trigger] s[i]
                        == s0[i] by {}
                    lemma_leaf_attached_wf(s0, self.root, r0, s, cur, to_left);
                    self.ranks = Ghost(leaf_ranks(r0, cur));
                    if tree_ordered(s0, b0) {
                        lemma_leaf_attached_ordered(s0, self.root, r0, b0, s, cur, to_left);
                    }
                    self.bounds = Ghost(b0.push(slot_range(s0, b0, cur, to_left)));
                    assert(same_contents(s0, s.subrange(0, s0.len() as int)));
                }
                let ghost s1 = self.arena.nodes@;
                self.rebalance(idx);
                proof {
                    let s = self.arena.nodes@;
                    assert(s[idx as int].key == s1[idx as int].key);
                    assert forall|i: int| 0 <= i < s0.len() implies #[trigger] s[i].key == s0[i].key
                        && s[i].value == s0[i].value by {
                        assert(s[i].key == s1[i].key);
                    }
                }
            },
        }
    }

    fn replace_value(&mut self, i: usize, value: V) {
        let ghost s0 = self.arena.nodes@;
        self.arena.nodes[i].value = value;
        proof {
            let s = self.arena.nodes@;
            assert(s =~= set_value(s0, i as int, value));
            assert forall|j: int| 0 <= j < s.len() implies #[trigger] linked_well(
                s,
                self.root,
                self.ranks@,
                j,
            ) by {
                assert(linked_well(s0, self.root, self.ranks@, j));
                if let Some(p) = s0[j].top {
                    assert(linked_well(s0, self.root, self.ranks@, p as int));
                }
            }
            if tree_ordered(s0, self.bounds@) {
                assert forall|j: int| 0 <= j < s.len() implies #[trigger] ordered_well(
                    s,
                    self.bounds@,
                    j,
                ) by {
                    assert(ordered_well(s0, self.bounds@, j));
                }
            }
            assert forall|j: int| #![trigger s[j]] 0 <= j < s.len() implies {
                &&& (s[j].top matches Some(t) ==> t < s.len())
                &&& (s[j].left matches Some(t) ==> t < s.len())
                &&& (s[j].right matches Some(t) ==> t < s.len())
            } by {
                assert(s0[j].top == s[j].top);
            }
        }
    }
}

proof fn lemma_below_ranks_lower<V>(
    s: Seq<BinaryNode<V>>,
    root: Option<usize>,
    r: Seq<nat>,
    i: int,
    a: int,
    fuel: nat,
)
    requires
        tree_wf(s, root, r),
        0 <= a < s.len(),
    ensures
        side_under(s, i, a, fuel) is Some ==> r[i] < r[a],
    decreases fuel,
{
    if fuel > 0 && 0 <= i < s.len() {
        if let Some(p) = s[i].top {
            assert(linked_well(s, root, r, i));
            assert(linked_well(s, root, r, p as int));
            if p as int != a {
                lemma_below_ranks_lower(s, root, r, p as int, a, (fuel - 1) as nat);
            }
        }
    }
}

/// Back-references agree with ownership in every tree that `new`, `add` and
/// `update` produce: a node's parent holds it in one of its child slots, each
/// child names its parent, the root and only the root has no parent, and
/// no node lies below itself, so the links hold no cycle.
pub proof fn lemma_back_references<V>(t: &AVLTree<V>)
    requires
        t.wf(),
    ensures
        ({
            let s = t.nodes();
            &&& forall|i: int|
                #![trigger s[i]]
                0 <= i < s.len() ==> {
                    &&& (s[i].top matches Some(p) ==> p < s.len() && (s[p as int].left == Some(
                        i as usize,
                    ) || s[p as int].right == Some(i as usize)))
                    &&& (s[i].top is None ==> t.root_index() == Some(i as usize))
                    &&& (s[i].left matches Some(c) ==> c < s.len() && s[c as int].top == Some(
                        i as usize,
                    ))
                    &&& (s[i].right matches Some(c) ==> c < s.len() && s[c as int].top == Some(
                        i as usize,
                    ))
                    &&& side_under(s, i, i, s.len()) is None
                }
            &&& (t.root_index() matches Some(rt) ==> rt < s.len() && s[rt as int].top is None)
        }),
{
    let s = t.nodes();
    assert forall|i: int| #![trigger s[i]] 0 <= i < s.len() implies {
        &&& (s[i].top matches Some(p) ==> p < s.len() && (s[p as int].left == Some(i as usize)
            || s[p as int].right == Some(i as usize)))
        &&& (s[i].top is None ==> t.root_index() == Some(i as usize))
        &&& (s[i].left matches Some(c) ==> c < s.len() && s[c as int].top == Some(i as usize))
        &&& (s[i].right matches Some(c) ==> c < s.len() && s[c as int].top == Some(i as usize))
        &&& side_under(s, i, i, s.len()) is None
    } by {
        assert(linked_well(s, t.root, t.ranks@, i));
        lemma_below_ranks_lower(s, t.root, t.ranks@, i, i, s.len());
    }
}

/// Which subtree of node `a` holds node `i`, found by walking up at most
/// `fuel` back-references from `i`: `Some(true)` for the left one,
/// `Some(false)` for the right one, `None` when `i` is not below `a`.
pub open spec fn side_under<V>(s: Seq<BinaryNode<V>>, i: int, a: int, fuel: nat) -> Option<bool>
    decreases fuel,
{
    if fuel == 0 || !(0 <= i < s.len()) {
        None
    } else {
        match s[i].top {
            None => None,
            Some(p) => if p as int == a {
                Some(s[a].left == Some(i as usize))
            } else {
                side_under(s, p as int, a, (fuel - 1) as nat)
            },
        }
    }
}

proof fn lemma_side_bounds<V>(
    s: Seq<BinaryNode<V>>,
    root: Option<usize>,
    r: Seq<nat>,
    bs: Seq<KeyRange>,
    i: int,
    a: int,
    fuel: nat,
)
    requires
        tree_wf(s, root, r),
        tree_ordered(s, bs),
        0 <= a < s.len(),
    ensures
        side_under(s, i, a, fuel) == Some(true) ==> (bs[i].1 matches Some(h) && key_cmp(
            h,
            s[a].key@,
        ) <= 0),
        side_under(s, i, a, fuel) == Some(false) ==> (bs[i].0 matches Some(l) && key_cmp(
            s[a].key@,
            l,
        ) <= 0),
        side_under(s, i, a, fuel) is Some ==> r[i] < r[a],
    decreases fuel,
{
    if fuel > 0 && 0 <= i < s.len() {
        if let Some(p) = s[i].top {
            assert(linked_well(s, root, r, i));
            assert(linked_well(s, root, r, p as int));
            assert(ordered_well(s, bs, p as int));
            if p as int == a {
                lemma_lex_cmp_refl(key_bytes(s[a].key@));
            } else {
                lemma_side_bounds(s, root, r, bs, p as int, a, (fuel - 1) as nat);
                if let Some(h) = bs[p as int].1 {
                    lemma_lex_cmp_trans(key_bytes(s[p as int].key@), key_bytes(h), key_bytes(s[a].key@));
                }
                if let Some(l) = bs[p as int].0 {
                    lemma_lex_cmp_trans(key_bytes(s[a].key@), key_bytes(l), key_bytes(s[p as int].key@));
                }
            }
        }
    }
}

/// Search-tree order: every key in the left subtree of a node is at most
/// the node's key, and every key in its right subtree is at least the
/// node's key, and greater when the tree's keys are distinct.
pub proof fn lemma_search_order<V>(t: &AVLTree<V>)
    requires
        t.wf(),
        t.ordered(),
    ensures
        forall|i: int, a: int|
            0 <= i < t.nodes().len() && 0 <= a < t.nodes().len() ==> {
                &&& (#[trigger] side_under(t.nodes(), i, a, t.nodes().len()) == Some(true)
                    ==> key_cmp(t.nodes()[i].key@, t.nodes()[a].key@) <= 0)
                &&& (side_under(t.nodes(), i, a, t.nodes().len()) == Some(false) ==> key_cmp(
                    t.nodes()[i].key@,
                    t.nodes()[a].key@,
                ) >= 0)
                &&& (side_under(t.nodes(), i, a, t.nodes().len()) == Some(false) && distinct_keys(
                    t.nodes(),
                ) ==> key_cmp(t.nodes()[i].key@, t.nodes()[a].key@) > 0)
            },
{
    let s = t.nodes();
    let bs = t.bounds@;
    assert forall|i: int, a: int| 0 <= i < s.len() && 0 <= a < s.len() implies {
        &&& (#[trigger] side_under(s, i, a, s.len()) == Some(true) ==> key_cmp(s[i].key@, s[a].key@)
            <= 0)
        &&& (side_under(s, i, a, s.len()) == Some(false) ==> key_cmp(s[i].key@, s[a].key@) >= 0)
        &&& (side_under(s, i, a, s.len()) == Some(false) && distinct_keys(s) ==> key_cmp(
            s[i].key@,
            s[a].key@,
        ) > 0)
    } by {
        lemma_side_bounds(s, t.root, t.ranks@, bs, i, a, s.len());
        assert(ordered_well(s, bs, i));
        if let Some(h) = bs[i].1 {
            lemma_lex_cmp_trans(key_bytes(s[i].key@), key_bytes(h), key_bytes(s[a].key@));
        }
        if let Some(l) = bs[i].0 {
            lemma_lex_cmp_trans(key_bytes(s[a].key@), key_bytes(l), key_bytes(s[i].key@));
        }
        lemma_lex_cmp_antisym(key_bytes(s[a].key@), key_bytes(s[i].key@));
        if side_under(s, i, a, s.len()) is Some && key_cmp(s[i].key@, s[a].key@) == 0 {
            lemma_key_cmp_zero(s[i].key@, s[a].key@);
            assert(i != a);
        }
    }
}

/// In a well-formed tree there is one rank per node and each child ranks
/// below its parent, so the descent of `place` always steps on to the child.
pub proof fn lemma_ranks_fall<V>(t: &AVLTree<V>)
    requires
        t.wf(),
    ensures
        t.rank_view().len() == t.nodes().len(),
        forall|i: int|
            #![trigger t.nodes()[i]]
            0 <= i < t.nodes().len() ==> {
                &&& (t.nodes()[i].left matches Some(c) ==> c < t.nodes().len() && t.rank_view()[
                    c as int] < t.rank_view()[i])
                &&& (t.nodes()[i].right matches Some(c) ==> c < t.nodes().len()
                    && t.rank_view()[c as int] < t.rank_view()[i])
            },
{
    let s = t.nodes();
    assert forall|i: int| #![trigger s[i]] 0 <= i < s.len() implies {
        &&& (s[i].left matches Some(c) ==> c < s.len() && t.rank_view()[c as int] < t.rank_view()[i])
        &&& (s[i].right matches Some(c) ==> c < s.len() && t.rank_view()[c as int] < t.rank_view()[i])
    } by {
        assert(linked_well(s, t.root, t.ranks@, i));
    }
}

/// An empty tree has height -1; a tree of one node has height 0.
pub proof fn lemma_height_convention<V>(s: Seq<BinaryNode<V>>)
    ensures
        height_at(s, None) == -1,
        s.len() == 1 && s[0].left is None && s[0].right is None ==> height_at(s, Some(0)) == 0,
{
}

proof fn lemma_rotated_right_ordered<V>(
    s0: Seq<BinaryNode<V>>,
    root0: Option<usize>,
    r0: Seq<nat>,
    b0: Seq<KeyRange>,
    s: Seq<BinaryNode<V>>,
    k1: usize,
)
    requires
        tree_wf(s0, root0, r0),
        tree_ordered(s0, b0),
        k1 < s0.len(),
        s0[k1 as int].left is Some,
        rotated_right(s0, s, k1),
        same_contents(s0, s),
    ensures
        tree_ordered(s, rotated_bounds(s0, b0, k1, s0[k1 as int].left.unwrap())),
{
    let k2 = s0[k1 as int].left.unwrap();
    let bs = rotated_bounds(s0, b0, k1, k2);
    assert forall|i: int| 0 <= i < s.len() implies #[trigger] ordered_well(s, bs, i) by {
        lemma_rotated_right_node_ordered(s0, root0, r0, b0, s, k1, i);
    }
}

#[verifier::rlimit(100)]
#[verifier::spinoff_prover]
proof fn lemma_rotated_right_node_ordered<V>(
    s0: Seq<BinaryNode<V>>,
    root0: Option<usize>,
    r0: Seq<nat>,
    b0: Seq<KeyRange>,
    s: Seq<BinaryNode<V>>,
    k1: usize,
    i: int,
)
    requires
        tree_wf(s0, root0, r0),
        tree_ordered(s0, b0),
        k1 < s0.len(),
        s0[k1 as int].left is Some,
        rotated_right(s0, s, k1),
        same_contents(s0, s),
        0 <= i < s0.len(),
    ensures
        ordered_well(s, rotated_bounds(s0, b0, k1, s0[k1 as int].left.unwrap()), i),
{
    let k2 = s0[k1 as int].left.unwrap();
    let y = s0[k2 as int].right;
    let top = s0[k1 as int].top;
    let bs = rotated_bounds(s0, b0, k1, k2);
    let key1 = s0[k1 as int].key@;
    let key2 = s0[k2 as int].key@;
    assert(linked_well(s0, root0, r0, k1 as int));
    assert(linked_well(s0, root0, r0, k2 as int));
    assert(linked_well(s0, root0, r0, i));
    assert(ordered_well(s0, b0, k1 as int));
    assert(ordered_well(s0, b0, k2 as int));
    assert(ordered_well(s0, b0, i));
    assert(s[i].key == s0[i].key);
    assert(s[k1 as int].key == s0[k1 as int].key);
    assert(s[k2 as int].key == s0[k2 as int].key);
    if key_cmp(key2, key1) == 0 {
        lemma_key_cmp_zero(key2, key1);
    }
    if key_cmp(key1, key2) == 0 {
        lemma_key_cmp_zero(key1, key2);
    }
    lemma_lex_cmp_antisym(key_bytes(key1), key_bytes(key2));
    if let Some(h) = b0[k1 as int].1 {
        lemma_lex_cmp_trans(key_bytes(key2), key_bytes(key1), key_bytes(h));
    }
    if let Some(l) = b0[k1 as int].0 {
        lemma_lex_cmp_trans(key_bytes(l), key_bytes(key1), key_bytes(key2));
    }
    if let Some(t) = top {
        assert(linked_well(s0, root0, r0, t as int));
        assert(ordered_well(s0, b0, t as int));
    }
    if let Some(yy) = y {
        assert(linked_well(s0, root0, r0, yy as int));
        assert(ordered_well(s0, b0, yy as int));
    }
    if let Some(c) = s0[i].left {
        assert(linked_well(s0, root0, r0, c as int));
    }
    if let Some(c) = s0[i].right {
        assert(linked_well(s0, root0, r0, c as int));
    }
    if let Some(c) = s0[k1 as int].right {
        assert(linked_well(s0, root0, r0, c as int));
    }
    if let Some(c) = s0[k2 as int].left {
        assert(linked_well(s0, root0, r0, c as int));
    }
    if i != k1 && i != k2 && Some(i as usize) != y && Some(i as usize) != top {
        assert(s[i] == s0[i]);
    }
}

proof fn lemma_rotated_left_ordered<V>(
    s0: Seq<BinaryNode<V>>,
    root0: Option<usize>,
    r0: Seq<nat>,
    b0: Seq<KeyRange>,
    s: Seq<BinaryNode<V>>,
    k1: usize,
)
    requires
        tree_wf(s0, root0, r0),
        tree_ordered(s0, b0),
        k1 < s0.len(),
        s0[k1 as int].right is Some,
        rotated_left(s0, s, k1),
        same_contents(s0, s),
    ensures
        tree_ordered(s, rotated_bounds(s0, b0, k1, s0[k1 as int].right.unwrap())),
{
    let k2 = s0[k1 as int].right.unwrap();
    let bs = rotated_bounds(s0, b0, k1, k2);
    assert forall|i: int| 0 <= i < s.len() implies #[trigger] ordered_well(s, bs, i) by {
        lemma_rotated_left_node_ordered(s0, root0, r0, b0, s, k1, i);
    }
}

#[verifier::rlimit(100)]
#[verifier::spinoff_prover]
proof fn lemma_rotated_left_node_ordered<V>(
    s0: Seq<BinaryNode<V>>,
    root0: Option<usize>,
    r0: Seq<nat>,
    b0: Seq<KeyRange>,
    s: Seq<BinaryNode<V>>,
    k1: usize,
    i: int,
)
    requires
        tree_wf(s0, root0, r0),
        tree_ordered(s0, b0),
        k1 < s0.len(),
        s0[k1 as int].right is Some,
        rotated_left(s0, s, k1),
        same_contents(s0, s),
        0 <= i < s0.len(),
    ensures
        ordered_well(s, rotated_bounds(s0, b0, k1, s0[k1 as int].right.unwrap()), i),
{
    let k2 = s0[k1 as int].right.unwrap();
    let y = s0[k2 as int].left;
    let top = s0[k1 as int].top;
    let bs = rotated_bounds(s0, b0, k1, k2);
    let key1 = s0[k1 as int].key@;
    let key2 = s0[k2 as int].key@;
    assert(linked_well(s0, root0, r0, k1 as int));
    assert(linked_well(s0, root0, r0, k2 as int));
    assert(linked_well(s0, root0, r0, i));
    assert(ordered_well(s0, b0, k1 as int));
    assert(ordered_well(s0, b0, k2 as int));
    assert(ordered_well(s0, b0, i));
    assert(s[i].key == s0[i].key);
    assert(s[k1 as int].key == s0[k1 as int].key);
    assert(s[k2 as int].key == s0[k2 as int].key);
    if key_cmp(key2, key1) == 0 {
        lemma_key_cmp_zero(key2, key1);
    }
    if key_cmp(key1, key2) == 0 {
        lemma_key_cmp_zero(key1, key2);
    }
    lemma_lex_cmp_antisym(key_bytes(key1), key_bytes(key2));
    if let Some(h) = b0[k1 as int].1 {
        lemma_lex_cmp_trans(key_bytes(key2), key_bytes(key1), key_bytes(h));
    }
    if let Some(l) = b0[k1 as int].0 {
        lemma_lex_cmp_trans(key_bytes(l), key_bytes(key1), key_bytes(key2));
    }
    if let Some(t) = top {
        assert(linked_well(s0, root0, r0, t as int));
        assert(ordered_well(s0, b0, t as int));
    }
    if let Some(yy) = y {
        assert(linked_well(s0, root0, r0, yy as int));
        assert(ordered_well(s0, b0, yy as int));
    }
    if let Some(c) = s0[i].right {
        assert(linked_well(s0, root0, r0, c as int));
    }
    if let Some(c) = s0[i].left {
        assert(linked_well(s0, root0, r0, c as int));
    }
    if let Some(c) = s0[k1 as int].left {
        assert(linked_well(s0, root0, r0, c as int));
    }
    if let Some(c) = s0[k2 as int].right {
        assert(linked_well(s0, root0, r0, c as int));
    }
    if i != k1 && i != k2 && Some(i as usize) != y && Some(i as usize) != top {
        assert(s[i] == s0[i]);
    }
}

/// The arena and root after `new_parent` takes the place of the node it
/// replaces: its back-reference becomes `top`, and it goes into the left slot
/// of `top` when `was_left`, into the right one otherwise, or to the root
/// when there is no `top`.
pub open spec fn relinked<V>(
    s: Seq<BinaryNode<V>>,
    root: Option<usize>,
    top: Option<usize>,
    was_left: bool,
    new_parent: usize,
) -> (Seq<BinaryNode<V>>, Option<usize>) {
    let s1 = set_top(s, new_parent as int, top);
    match top {
        None => (s1, Some(new_parent)),
        Some(t) => if was_left {
            (set_left(s1, t as int, Some(new_parent)), root)
        } else {
            (set_right(s1, t as int, Some(new_parent)), root)
        },
    }
}

/// The arena and root after a right rotation at `k1`: its left child `k2`
/// gives its right subtree `y` to `k1`, takes `k1` as its right child and
/// moves into the place of `k1`.
pub open spec fn rot_right<V>(s: Seq<BinaryNode<V>>, root: Option<usize>, k1: usize) -> (Seq<
    BinaryNode<V>,
>, Option<usize>) {
    let k2 = s[k1 as int].left.unwrap();
    let y = s[k2 as int].right;
    let top = s[k1 as int].top;
    let s1 = set_left(s, k1 as int, y);
    let s2 = match y {
        Some(c) => set_top(s1, c as int, Some(k1)),
        None => s1,
    };
    let s3 = set_right(s2, k2 as int, Some(k1));
    let s4 = set_top(s3, k1 as int, Some(k2));
    let was_left = match top {
        Some(t) => s[t as int].left == Some(k1),
        None => false,
    };
    relinked(s4, root, top, was_left, k2)
}

/// The arena and root after a left rotation at `k1`: its right child `k2`
/// gives its left subtree `y` to `k1`, takes `k1` as its left child and
/// moves into the place of `k1`.
pub open spec fn rot_left<V>(s: Seq<BinaryNode<V>>, root: Option<usize>, k1: usize) -> (Seq<
    BinaryNode<V>,
>, Option<usize>) {
    let k2 = s[k1 as int].right.unwrap();
    let y = s[k2 as int].left;
    let top = s[k1 as int].top;
    let s1 = set_right(s, k1 as int, y);
    let s2 = match y {
        Some(c) => set_top(s1, c as int, Some(k1)),
        None => s1,
    };
    let s3 = set_left(s2, k2 as int, Some(k1));
    let s4 = set_top(s3, k1 as int, Some(k2));
    let was_left = match top {
        Some(t) => s[t as int].left == Some(k1),
        None => false,
    };
    relinked(s4, root, top, was_left, k2)
}

/// The arena and root after the restructuring that node `i` calls for; a
/// double rotation is a rotation at the heavy child followed by one at `i`.
pub open spec fn adjusted<V>(s: Seq<BinaryNode<V>>, root: Option<usize>, i: usize) -> (Seq<
    BinaryNode<V>,
>, Option<usize>) {
    match tran_type_of(s, i as int) {
        TranType::SingleRight => rot_right(s, root, i),
        TranType::SingleLeft => rot_left(s, root, i),
        TranType::DoubleRight => {
            let m = rot_left(s, root, s[i as int].left.unwrap());
            rot_right(m.0, m.1, i)
        },
        TranType::DoubleLeft => {
            let m = rot_right(s, root, s[i as int].right.unwrap());
            rot_left(m.0, m.1, i)
        },
        TranType::Keep => (s, root),
    }
}

/// The arena and root after the rebalancing pass from node `cur`: the node
/// is restructured as it calls for, then the pass goes on from the parent it
/// had before (at most `fuel` nodes in all).
pub open spec fn pass<V>(s: Seq<BinaryNode<V>>, root: Option<usize>, cur: usize, fuel: nat) -> (Seq<
    BinaryNode<V>,
>, Option<usize>)
    decreases fuel,
{
    if fuel == 0 || cur >= s.len() {
        (s, root)
    } else {
        let a = adjusted(s, root, cur);
        match s[cur as int].top {
            None => a,
            Some(p) => pass(a.0, a.1, p, (fuel - 1) as nat),
        }
    }
}

/// Where a descent from `cur` that places `key` ends: the node whose empty
/// slot takes it, and whether that slot is the left one. The descent goes
/// left at nodes whose key is greater than or equal to `key`, right
/// otherwise; it only ever steps to a lower rank, which in a well-formed
/// tree every child has.
pub open spec fn place<V>(s: Seq<BinaryNode<V>>, ranks: Seq<nat>, cur: usize, key: Seq<char>) -> (
    usize,
    bool,
)
    decreases ranks[cur as int],
{
    let to_left = places_left(s[cur as int].key@, key);
    let next = if to_left {
        s[cur as int].left
    } else {
        s[cur as int].right
    };
    match next {
        None => (cur, to_left),
        Some(c) => if c < s.len() && c < ranks.len() && cur < ranks.len() && ranks[c as int]
            < ranks[cur as int] {
            place(s, ranks, c, key)
        } else {
            (cur, to_left)
        },
    }
}

/// The arena and root after `node` is added: into an empty tree as its
/// root; otherwise hung, as the last node of the arena, in the slot where
/// the descent from the root ends, followed by the rebalancing pass from it.
pub open spec fn inserted<V>(
    s: Seq<BinaryNode<V>>,
    root: Option<usize>,
    ranks: Seq<nat>,
    node: BinaryNode<V>,
) -> (Seq<BinaryNode<V>>, Option<usize>) {
    match root {
        None => (s.push(node), Some(s.len() as usize)),
        Some(r) => {
            let (p, to_left) = place(s, ranks, r, node.key@);
            let s1 = if to_left {
                linked_left(s.push(node), p, Some(s.len() as usize))
            } else {
                linked_right(s.push(node), p, Some(s.len() as usize))
            };
            pass(s1, root, s.len() as usize, s1.len())
        },
    }
}

/// Ranges after a rotation lifts `k2` into the place of `k1`: `k2` takes
/// the range of `k1`, and `k1` the keys above `k2` within it.
pub open spec fn rotated_bounds<V>(s0: Seq<BinaryNode<V>>, b: Seq<KeyRange>, k1: usize, k2: usize) -> Seq<KeyRange> {
    if s0[k1 as int].left == Some(k2) {
        b.update(k2 as int, b[k1 as int]).update(k1 as int, (Some(s0[k2 as int].key@), b[k1 as int].1))
    } else {
        b.update(k2 as int, b[k1 as int]).update(k1 as int, (b[k1 as int].0, Some(s0[k2 as int].key@)))
    }
}

/// Ranks after a rotation lifts `up` into the place of `down`: all doubled,
/// `up` takes the doubled rank of `down`, and `down` one less.
pub open spec fn raised_ranks(r: Seq<nat>, up: usize, down: usize) -> Seq<nat> {
    Seq::new(
        r.len(),
        |i: int|
            if i == up {
                2 * r[down as int]
            } else if i == down {
                (2 * r[down as int] - 1) as nat
            } else {
                2 * r[i]
            },
    )
}

/// `s` is `s0` after a right rotation at `k1`: its left child `k2` takes its
/// place, `k1` becomes the right child of `k2` and takes the former right
/// subtree `y` of `k2` as its left.
pub open spec fn rotated_right<V>(s0: Seq<BinaryNode<V>>, s: Seq<BinaryNode<V>>, k1: usize) -> bool {
    let k2 = s0[k1 as int].left.unwrap();
    let y = s0[k2 as int].right;
    let top = s0[k1 as int].top;
    &&& s.len() == s0.len()
    &&& s[k1 as int].top == Some(k2)
    &&& s[k1 as int].left == y
    &&& s[k1 as int].right == s0[k1 as int].right
    &&& s[k2 as int].top == top
    &&& s[k2 as int].left == s0[k2 as int].left
    &&& s[k2 as int].right == Some(k1)
    &&& (y matches Some(yy) ==> s[yy as int].top == Some(k1) && s[yy as int].left == s0[
        yy as int].left && s[yy as int].right == s0[yy as int].right)
    &&& (top matches Some(t) ==> s[t as int].top == s0[t as int].top && if s0[t as int].left == Some(
        k1,
    ) {
        s[t as int].left == Some(k2) && s[t as int].right == s0[t as int].right
    } else {
        s[t as int].right == Some(k2) && s[t as int].left == s0[t as int].left
    })
    &&& forall|i: int|
        0 <= i < s.len() && i != k1 && i != k2 && Some(i as usize) != y && Some(i as usize) != top
            ==> #[trigger] s[i] == s0[i]
}

proof fn lemma_rotated_right_wf<V>(
    s0: Seq<BinaryNode<V>>,
    root0: Option<usize>,
    r0: Seq<nat>,
    s: Seq<BinaryNode<V>>,
    root: Option<usize>,
    k1: usize,
)
    requires
        tree_wf(s0, root0, r0),
        k1 < s0.len(),
        s0[k1 as int].left is Some,
        rotated_right(s0, s, k1),
        same_contents(s0, s),
        root0 == Some(k1) ==> root == s0[k1 as int].left,
        root0 != Some(k1) ==> root == root0,
    ensures
        tree_wf(s, root, raised_ranks(r0, s0[k1 as int].left.unwrap(), k1)),
{
    let k2 = s0[k1 as int].left.unwrap();
    let y = s0[k2 as int].right;
    let top = s0[k1 as int].top;
    let rk = raised_ranks(r0, k2, k1);
    let n = s.len();
    assert(linked_well(s0, root0, r0, k1 as int));
    assert(linked_well(s0, root0, r0, k2 as int));
    if let Some(t) = top {
        assert(linked_well(s0, root0, r0, t as int));
    }
    if let Some(yy) = y {
        assert(linked_well(s0, root0, r0, yy as int));
    }
    assert forall|i: int| 0 <= i < n implies #[trigger] linked_well(s, root, rk, i) by {
        lemma_rotated_right_node(s0, root0, r0, s, root, k1, i);
    }
    assert forall|i: int| #![trigger s[i]] 0 <= i < n implies {
        &&& (s[i].top matches Some(j) ==> j < n)
        &&& (s[i].left matches Some(j) ==> j < n)
        &&& (s[i].right matches Some(j) ==> j < n)
    } by {
        assert(linked_well(s0, root0, r0, i));
    }
}

#[verifier::rlimit(100)]
#[verifier::spinoff_prover]
proof fn lemma_rotated_right_node<V>(
    s0: Seq<BinaryNode<V>>,
    root0: Option<usize>,
    r0: Seq<nat>,
    s: Seq<BinaryNode<V>>,
    root: Option<usize>,
    k1: usize,
    i: int,
)
    requires
        tree_wf(s0, root0, r0),
        k1 < s0.len(),
        s0[k1 as int].left is Some,
        rotated_right(s0, s, k1),
        root0 == Some(k1) ==> root == s0[k1 as int].left,
        root0 != Some(k1) ==> root == root0,
        0 <= i < s0.len(),
    ensures
        linked_well(s, root, raised_ranks(r0, s0[k1 as int].left.unwrap(), k1), i),
{
    let k2 = s0[k1 as int].left.unwrap();
    let y = s0[k2 as int].right;
    let top = s0[k1 as int].top;
    let rk = raised_ranks(r0, k2, k1);
    assert(linked_well(s0, root0, r0, k1 as int));
    assert(linked_well(s0, root0, r0, k2 as int));
    assert(linked_well(s0, root0, r0, i));
    if let Some(t) = top {
        assert(linked_well(s0, root0, r0, t as int));
    }
    if let Some(yy) = y {
        assert(linked_well(s0, root0, r0, yy as int));
    }
    if i == k1 as int {
        if let Some(z) = s0[k1 as int].right {
            assert(linked_well(s0, root0, r0, z as int));
            assert(s[z as int] == s0[z as int]);
        }
    } else if i == k2 as int {
        if let Some(x) = s0[k2 as int].left {
            assert(linked_well(s0, root0, r0, x as int));
            assert(s[x as int] == s0[x as int]);
        }
    } else if y == Some(i as usize) {
        if let Some(c) = s0[i].left {
            assert(linked_well(s0, root0, r0, c as int));
            assert(s[c as int] == s0[c as int]);
        }
        if let Some(c) = s0[i].right {
            assert(linked_well(s0, root0, r0, c as int));
            assert(s[c as int] == s0[c as int]);
        }
    } else if top == Some(i as usize) {
        if let Some(p) = s0[i].top {
            assert(linked_well(s0, root0, r0, p as int));
            assert(s[p as int] == s0[p as int]);
        }
        if let Some(c) = s0[i].left {
            if c != k1 {
                assert(linked_well(s0, root0, r0, c as int));
                assert(s[c as int] == s0[c as int]);
            }
        }
        if let Some(c) = s0[i].right {
            if c != k1 {
                assert(linked_well(s0, root0, r0, c as int));
                assert(s[c as int] == s0[c as int]);
            }
        }
    } else {
        assert(s[i] == s0[i]);
        if let Some(p) = s0[i].top {
            assert(linked_well(s0, root0, r0, p as int));
            if p != k1 && p != k2 && Some(p) != y && Some(p) != top {
                assert(s[p as int] == s0[p as int]);
            }
        }
        if let Some(c) = s0[i].left {
            assert(linked_well(s0, root0, r0, c as int));
            if Some(c) != top {
                assert(s[c as int] == s0[c as int]);
            }
        }
        if let Some(c) = s0[i].right {
            assert(linked_well(s0, root0, r0, c as int));
            if Some(c) != top {
                assert(s[c as int] == s0[c as int]);
            }
        }
    }
}

/// `s` is `s0` after a left rotation at `k1`: its right child `k2` takes its
/// place, `k1` becomes the left child of `k2` and takes the former left
/// subtree `y` of `k2` as its right.
pub open spec fn rotated_left<V>(s0: Seq<BinaryNode<V>>, s: Seq<BinaryNode<V>>, k1: usize) -> bool {
    let k2 = s0[k1 as int].right.unwrap();
    let y = s0[k2 as int].left;
    let top = s0[k1 as int].top;
    &&& s.len() == s0.len()
    &&& s[k1 as int].top == Some(k2)
    &&& s[k1 as int].right == y
    &&& s[k1 as int].left == s0[k1 as int].left
    &&& s[k2 as int].top == top
    &&& s[k2 as int].right == s0[k2 as int].right
    &&& s[k2 as int].left == Some(k1)
    &&& (y matches Some(yy) ==> s[yy as int].top == Some(k1) && s[yy as int].right == s0[
        yy as int].right && s[yy as int].left == s0[yy as int].left)
    &&& (top matches Some(t) ==> s[t as int].top == s0[t as int].top && if s0[t as int].right == Some(
        k1,
    ) {
        s[t as int].right == Some(k2) && s[t as int].left == s0[t as int].left
    } else {
        s[t as int].left == Some(k2) && s[t as int].right == s0[t as int].right
    })
    &&& forall|i: int|
        0 <= i < s.len() && i != k1 && i != k2 && Some(i as usize) != y && Some(i as usize) != top
            ==> #[trigger] s[i] == s0[i]
}

proof fn lemma_rotated_left_wf<V>(
    s0: Seq<BinaryNode<V>>,
    root0: Option<usize>,
    r0: Seq<nat>,
    s: Seq<BinaryNode<V>>,
    root: Option<usize>,
    k1: usize,
)
    requires
        tree_wf(s0, root0, r0),
        k1 < s0.len(),
        s0[k1 as int].right is Some,
        rotated_left(s0, s, k1),
        same_contents(s0, s),
        root0 == Some(k1) ==> root == s0[k1 as int].right,
        root0 != Some(k1) ==> root == root0,
    ensures
        tree_wf(s, root, raised_ranks(r0, s0[k1 as int].right.unwrap(), k1)),
{
    let k2 = s0[k1 as int].right.unwrap();
    let y = s0[k2 as int].left;
    let top = s0[k1 as int].top;
    let rk = raised_ranks(r0, k2, k1);
    let n = s.len();
    assert(linked_well(s0, root0, r0, k1 as int));
    assert(linked_well(s0, root0, r0, k2 as int));
    if let Some(t) = top {
        assert(linked_well(s0, root0, r0, t as int));
    }
    if let Some(yy) = y {
        assert(linked_well(s0, root0, r0, yy as int));
    }
    assert forall|i: int| 0 <= i < n implies #[trigger] linked_well(s, root, rk, i) by {
        lemma_rotated_left_node(s0, root0, r0, s, root, k1, i);
    }
    assert forall|i: int| #![trigger s[i]] 0 <= i < n implies {
        &&& (s[i].top matches Some(j) ==> j < n)
        &&& (s[i].right matches Some(j) ==> j < n)
        &&& (s[i].left matches Some(j) ==> j < n)
    } by {
        assert(linked_well(s0, root0, r0, i));
    }
}

#[verifier::rlimit(100)]
#[verifier::spinoff_prover]
proof fn lemma_rotated_left_node<V>(
    s0: Seq<BinaryNode<V>>,
    root0: Option<usize>,
    r0: Seq<nat>,
    s: Seq<BinaryNode<V>>,
    root: Option<usize>,
    k1: usize,
    i: int,
)
    requires
        tree_wf(s0, root0, r0),
        k1 < s0.len(),
        s0[k1 as int].right is Some,
        rotated_left(s0, s, k1),
        root0 == Some(k1) ==> root == s0[k1 as int].right,
        root0 != Some(k1) ==> root == root0,
        0 <= i < s0.len(),
    ensures
        linked_well(s, root, raised_ranks(r0, s0[k1 as int].right.unwrap(), k1), i),
{
    let k2 = s0[k1 as int].right.unwrap();
    let y = s0[k2 as int].left;
    let top = s0[k1 as int].top;
    let rk = raised_ranks(r0, k2, k1);
    assert(linked_well(s0, root0, r0, k1 as int));
    assert(linked_well(s0, root0, r0, k2 as int));
    assert(linked_well(s0, root0, r0, i));
    if let Some(t) = top {
        assert(linked_well(s0, root0, r0, t as int));
    }
    if let Some(yy) = y {
        assert(linked_well(s0, root0, r0, yy as int));
    }
    if i == k1 as int {
        if let Some(z) = s0[k1 as int].left {
            assert(linked_well(s0, root0, r0, z as int));
            assert(s[z as int] == s0[z as int]);
        }
    } else if i == k2 as int {
        if let Some(x) = s0[k2 as int].right {
            assert(linked_well(s0, root0, r0, x as int));
            assert(s[x as int] == s0[x as int]);
        }
    } else if y == Some(i as usize) {
        if let Some(c) = s0[i].right {
            assert(linked_well(s0, root0, r0, c as int));
            assert(s[c as int] == s0[c as int]);
        }
        if let Some(c) = s0[i].left {
            assert(linked_well(s0, root0, r0, c as int));
            assert(s[c as int] == s0[c as int]);
        }
    } else if top == Some(i as usize) {
        if let Some(p) = s0[i].top {
            assert(linked_well(s0, root0, r0, p as int));
            assert(s[p as int] == s0[p as int]);
        }
        if let Some(c) = s0[i].right {
            if c != k1 {
                assert(linked_well(s0, root0, r0, c as int));
                assert(s[c as int] == s0[c as int]);
            }
        }
        if let Some(c) = s0[i].left {
            if c != k1 {
                assert(linked_well(s0, root0, r0, c as int));
                assert(s[c as int] == s0[c as int]);
            }
        }
    } else {
        assert(s[i] == s0[i]);
        if let Some(p) = s0[i].top {
            assert(linked_well(s0, root0, r0, p as int));
            if p != k1 && p != k2 && Some(p) != y && Some(p) != top {
                assert(s[p as int] == s0[p as int]);
            }
        }
        if let Some(c) = s0[i].right {
            assert(linked_well(s0, root0, r0, c as int));
            if Some(c) != top {
                assert(s[c as int] == s0[c as int]);
            }
        }
        if let Some(c) = s0[i].left {
            assert(linked_well(s0, root0, r0, c as int));
            if Some(c) != top {
                assert(s[c as int] == s0[c as int]);
            }
        }
    }
}

/// Ranks after a leaf is hung under node `parent`: all raised by one, and
/// the leaf, last in the arena, takes the former rank of `parent`.
pub open spec fn leaf_ranks(r: Seq<nat>, parent: usize) -> Seq<nat> {
    Seq::new(r.len() + 1, |i: int| if i < r.len() { r[i] + 1 } else { r[parent as int] })
}

proof fn lemma_leaf_attached_wf<V>(
    s0: Seq<BinaryNode<V>>,
    root: Option<usize>,
    r0: Seq<nat>,
    s: Seq<BinaryNode<V>>,
    cur: usize,
    to_left: bool,
)
    requires
        tree_wf(s0, root, r0),
        s0.len() < MAX_NODES,
        cur < s0.len(),
        to_left ==> s0[cur as int].left is None,
        !to_left ==> s0[cur as int].right is None,
        s.len() == s0.len() + 1,
        s[s0.len() as int].top == Some(cur),
        s[s0.len() as int].left is None,
        s[s0.len() as int].right is None,
        s[cur as int].top == s0[cur as int].top,
        to_left ==> s[cur as int].left == Some(s0.len() as usize) && s[cur as int].right == s0[
            cur as int].right,
        !to_left ==> s[cur as int].right == Some(s0.len() as usize) && s[cur as int].left == s0[
            cur as int].left,
        forall|i: int| 0 <= i < s0.len() && i != cur ==> #[trigger] s[i] == s0[i],
    ensures
        tree_wf(s, root, leaf_ranks(r0, cur)),
{
    let n = s0.len();
    let rk = leaf_ranks(r0, cur);
    assert(linked_well(s0, root, r0, cur as int));
    assert forall|i: int| 0 <= i < s.len() implies #[trigger] linked_well(s, root, rk, i) by {
        if i < n {
            assert(linked_well(s0, root, r0, i));
            if let Some(p) = s0[i].top {
                assert(linked_well(s0, root, r0, p as int));
            }
            if let Some(c) = s0[i].left {
                assert(linked_well(s0, root, r0, c as int));
            }
            if let Some(c) = s0[i].right {
                assert(linked_well(s0, root, r0, c as int));
            }
        }
    }
    assert forall|i: int| #![trigger s[i]] 0 <= i < s.len() implies {
        &&& (s[i].top matches Some(j) ==> j < s.len())
        &&& (s[i].left matches Some(j) ==> j < s.len())
        &&& (s[i].right matches Some(j) ==> j < s.len())
    } by {
        if i < n {
            assert(linked_well(s0, root, r0, i));
        }
    }
}

/// The range of the empty child slot of `cur` where a descent ends.
pub open spec fn slot_range<V>(s: Seq<BinaryNode<V>>, bs: Seq<KeyRange>, cur: usize, to_left: bool) -> KeyRange {
    if to_left {
        (bs[cur as int].0, Some(s[cur as int].key@))
    } else {
        (Some(s[cur as int].key@), bs[cur as int].1)
    }
}

proof fn lemma_leaf_attached_ordered<V>(
    s0: Seq<BinaryNode<V>>,
    root: Option<usize>,
    r0: Seq<nat>,
    b0: Seq<KeyRange>,
    s: Seq<BinaryNode<V>>,
    cur: usize,
    to_left: bool,
)
    requires
        tree_wf(s0, root, r0),
        tree_ordered(s0, b0),
        cur < s0.len(),
        in_range(slot_range(s0, b0, cur, to_left), s[s0.len() as int].key@),
        to_left ==> s0[cur as int].left is None,
        !to_left ==> s0[cur as int].right is None,
        s.len() == s0.len() + 1,
        s[s0.len() as int].top == Some(cur),
        s[s0.len() as int].left is None,
        s[s0.len() as int].right is None,
        s[cur as int].top == s0[cur as int].top,
        s[cur as int].key == s0[cur as int].key,
        to_left ==> s[cur as int].left == Some(s0.len() as usize) && s[cur as int].right == s0[
            cur as int].right,
        !to_left ==> s[cur as int].right == Some(s0.len() as usize) && s[cur as int].left == s0[
            cur as int].left,
        forall|i: int| 0 <= i < s0.len() && i != cur ==> #[trigger] s[i] == s0[i],
    ensures
        tree_ordered(s, b0.push(slot_range(s0, b0, cur, to_left))),
{
    let n = s0.len();
    let bs = b0.push(slot_range(s0, b0, cur, to_left));
    assert forall|i: int| 0 <= i < s.len() implies #[trigger] ordered_well(s, bs, i) by {
        if i < n {
            assert(ordered_well(s0, b0, i));
            assert(linked_well(s0, root, r0, i));
            if i != cur {
                assert(s[i] == s0[i]);
            }
        }
    }
}

/// The node reached from `i` by following left links (at most `fuel` of them).
pub open spec fn leftmost<V>(s: Seq<BinaryNode<V>>, i: usize, fuel: nat) -> usize
    decreases fuel,
{
    if fuel == 0 || i >= s.len() {
        i
    } else {
        match s[i as int].left {
            None => i,
            Some(l) => if l < s.len() {
                leftmost(s, l, (fuel - 1) as nat)
            } else {
                i
            },
        }
    }
}

/// The node reached from `i` by following right links (at most `fuel` of them).
pub open spec fn rightmost<V>(s: Seq<BinaryNode<V>>, i: usize, fuel: nat) -> usize
    decreases fuel,
{
    if fuel == 0 || i >= s.len() {
        i
    } else {
        match s[i as int].right {
            None => i,
            Some(l) => if l < s.len() {
                rightmost(s, l, (fuel - 1) as nat)
            } else {
                i
            },
        }
    }
}

proof fn lemma_extremes_in_range<V>(s: Seq<BinaryNode<V>>, i: usize, fuel: nat)
    requires
        i < s.len(),
    ensures
        leftmost(s, i, fuel) < s.len(),
        rightmost(s, i, fuel) < s.len(),
    decreases fuel,
{
    if fuel > 0 {
        if let Some(l) = s[i as int].left {
            if l < s.len() {
                lemma_extremes_in_range(s, l, (fuel - 1) as nat);
            }
        }
        if let Some(l) = s[i as int].right {
            if l < s.len() {
                lemma_extremes_in_range(s, l, (fuel - 1) as nat);
            }
        }
    }
}

} // verus!
