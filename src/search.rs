//! The operations that every search tree offers on top of its placement rule.
use crate::binary::{node_height, BinaryNode, NodeArena, MAX_NODES};
use vstd::pervasive::cloned;
use crate::key::{compare_keys, key_bytes, key_cmp, lemma_lex_cmp_zero};
use vstd::utf8::encode_utf8_decode_utf8;
use vstd::prelude::*;
use vstd::string::StringExecFns;

verus! {

/// The node that a descent from `cur` looking for `key` reaches, following at
/// most `fuel` links: right past smaller keys, left past greater ones.
pub open spec fn search<V>(s: Seq<BinaryNode<V>>, cur: Option<usize>, key: Seq<char>, fuel: nat) -> Option<usize>
    decreases fuel,
{
    match cur {
        None => None,
        Some(c) => if fuel == 0 || c >= s.len() {
            None
        } else {
            let o = key_cmp(s[c as int].key@, key);
            if o == 0 {
                Some(c)
            } else if o < 0 {
                search(s, s[c as int].right, key, (fuel - 1) as nat)
            } else {
                search(s, s[c as int].left, key, (fuel - 1) as nat)
            }
        },
    }
}

/// The node holding `key` in the tree of arena `s` rooted at `root`.
pub open spec fn lookup<V>(s: Seq<BinaryNode<V>>, root: Option<usize>, key: Seq<char>) -> Option<usize> {
    search(s, root, key, s.len())
}

/// Height of the tree rooted at `root`: -1 when it is empty.
pub open spec fn height_at<V>(s: Seq<BinaryNode<V>>, root: Option<usize>) -> int {
    match root {
        None => -1,
        Some(r) => node_height(s, s[r as int]),
    }
}

/// Descends from `start` to the node whose key equals `key`.
pub fn find_from<V>(arena: &NodeArena<V>, start: Option<usize>, key: &String) -> (r: Option<usize>)
    ensures
        r == search(arena.nodes@, start, key@, arena.nodes@.len()),
{
    let n = arena.nodes.len();
    let mut cur = start;
    let mut fuel: usize = n;
    while fuel > 0
        invariant
            n == arena.nodes@.len(),
            fuel <= n,
            search(arena.nodes@, cur, key@, fuel as nat) == search(
                arena.nodes@,
                start,
                key@,
                n as nat,
            ),
        decreases fuel,
    {
        match cur {
            None => {
                return None;
            },
            Some(c) => {
                if c >= n {
                    return None;
                }
                let o = compare_keys(&arena.nodes[c].key, key);
                if o == 0 {
                    return Some(c);
                } else if o < 0 {
                    cur = arena.nodes[c].right;
                } else {
                    cur = arena.nodes[c].left;
                }
                fuel = fuel - 1;
            },
        }
    }
    None
}

/// `s` with the value of node `i` replaced by `v`.
pub open spec fn set_value<V>(s: Seq<BinaryNode<V>>, i: int, v: V) -> Seq<BinaryNode<V>> {
    s.update(
        i,
        BinaryNode { key: s[i].key, value: v, top: s[i].top, left: s[i].left, right: s[i].right },
    )
}

/// The message of the error that `update` returns for a missing key.
pub open spec fn not_found_message(key: Seq<char>) -> Seq<char> {
    "node="@ + key + " not exists"@
}

pub proof fn lemma_search_in_range<V>(s: Seq<BinaryNode<V>>, cur: Option<usize>, key: Seq<char>, fuel: nat)
    ensures
        search(s, cur, key, fuel) matches Some(i) ==> i < s.len() && key_cmp(s[i as int].key@, key) == 0,
    decreases fuel,
{
    if let Some(c) = cur {
        if fuel > 0 && c < s.len() {
            lemma_search_in_range(s, s[c as int].left, key, (fuel - 1) as nat);
            lemma_search_in_range(s, s[c as int].right, key, (fuel - 1) as nat);
        }
    }
}

proof fn lemma_search_set_value<V>(
    s: Seq<BinaryNode<V>>,
    cur: Option<usize>,
    key: Seq<char>,
    fuel: nat,
    i: int,
    v: V,
)
    requires
        0 <= i < s.len(),
    ensures
        search(set_value(s, i, v), cur, key, fuel) == search(s, cur, key, fuel),
    decreases fuel,
{
    if let Some(c) = cur {
        if fuel > 0 && c < s.len() {
            lemma_search_set_value(s, s[c as int].left, key, (fuel - 1) as nat, i, v);
            lemma_search_set_value(s, s[c as int].right, key, (fuel - 1) as nat, i, v);
        }
    }
}

/// Round trip: once `update` has put `v` in the node that a lookup of `key`
/// reaches, a lookup of `key` reaches that same node and finds `v`.
pub proof fn lemma_update_then_find<V>(s: Seq<BinaryNode<V>>, root: Option<usize>, key: Seq<char>, v: V)
    requires
        lookup(s, root, key) is Some,
    ensures
        ({
            let i = lookup(s, root, key).unwrap();
            &&& lookup(set_value(s, i as int, v), root, key) == Some(i)
            &&& set_value(s, i as int, v)[i as int].value == v
        }),
{
    let i = lookup(s, root, key).unwrap();
    lemma_search_in_range(s, root, key, s.len());
    lemma_search_set_value(s, root, key, s.len(), i as int, v);
}

/// A key that no node holds is not found.
pub proof fn lemma_absent_key_not_found<V>(s: Seq<BinaryNode<V>>, root: Option<usize>, key: Seq<char>)
    requires
        forall|i: int| 0 <= i < s.len() ==> #[trigger] s[i].key@ != key,
    ensures
        lookup(s, root, key) is None,
{
    lemma_search_in_range(s, root, key, s.len());
    if let Some(i) = lookup(s, root, key) {
        lemma_lex_cmp_zero(key_bytes(s[i as int].key@), key_bytes(key));
        encode_utf8_decode_utf8(s[i as int].key@);
        encode_utf8_decode_utf8(key);
        assert(s[i as int].key@ == key);
    }
}

/// The shared interface of search trees: a tree variant decides where a new
/// node goes (`add_node`); finding, adding, updating and measuring are built
/// on that and on `root`.
pub trait SearchTree<V>: Sized {
    /// The arena that holds the tree's nodes.
    spec fn tree_nodes(&self) -> Seq<BinaryNode<V>>;

    /// The index of the root, `None` for an empty tree.
    spec fn tree_root(&self) -> Option<usize>;

    /// The variant's invariant.
    spec fn valid(&self) -> bool;

    /// The keys are in search-tree order.
    spec fn in_order(&self) -> bool;

    /// `self` is `before` with `node` added by the variant's placement rule.
    spec fn placed(&self, before: Self, node: BinaryNode<V>) -> bool;

    proof fn lemma_valid_bounds(&self)
        requires
            self.valid(),
        ensures
            self.tree_nodes().len() <= MAX_NODES,
            self.tree_root() matches Some(r) ==> r < self.tree_nodes().len(),
    ;

    /// The root's index.
    fn root(&self) -> (r: Option<usize>)
        ensures
            r == self.tree_root(),
    ;

    /// The arena of the tree's nodes, for reading.
    fn arena(&self) -> (r: &NodeArena<V>)
        ensures
            r.nodes@ == self.tree_nodes(),
    ;

    /// Places a node that has no links yet into the tree.
    fn add_node(&mut self, node: BinaryNode<V>)
        requires
            old(self).valid(),
            old(self).tree_nodes().len() < MAX_NODES,
            node.top is None,
            node.left is None,
            node.right is None,
        ensures
            final(self).valid(),
            old(self).in_order() ==> final(self).in_order(),
            final(self).placed(*old(self), node),
            final(self).tree_nodes().len() == old(self).tree_nodes().len() + 1,
            final(self).tree_nodes()[old(self).tree_nodes().len() as int].key == node.key,
            final(self).tree_nodes()[old(self).tree_nodes().len() as int].value == node.value,
            forall|i: int|
                #![trigger final(self).tree_nodes()[i]]
                0 <= i < old(self).tree_nodes().len() ==> final(self).tree_nodes()[i].key == old(
                    self,
                ).tree_nodes()[i].key && final(self).tree_nodes()[i].value == old(
                    self,
                ).tree_nodes()[i].value,
    ;

    /// Replaces the value of node `i`; the links stay.
    fn replace_value(&mut self, i: usize, value: V)
        requires
            old(self).valid(),
            i < old(self).tree_nodes().len(),
        ensures
            final(self).valid(),
            old(self).in_order() ==> final(self).in_order(),
            final(self).tree_root() == old(self).tree_root(),
            final(self).tree_nodes() == set_value(old(self).tree_nodes(), i as int, value),
    ;

    /// The node that holds `key`, if the descent from the root meets one.
    fn find_node(&self, key: &String) -> (r: Option<usize>)
        ensures
            r == lookup(self.tree_nodes(), self.tree_root(), key@),
    {
        find_from(self.arena(), self.root(), key)
    }

    /// The value stored under `key`.
    fn find(&self, key: &String) -> (r: Option<&V>)
        ensures
            match lookup(self.tree_nodes(), self.tree_root(), key@) {
                None => r is None,
                Some(i) => r matches Some(v) && *v == self.tree_nodes()[i as int].value,
            },
    {
        let arena = self.arena();
        match self.find_node(key) {
            None => None,
            Some(i) => {
                proof {
                    lemma_search_in_range(self.tree_nodes(), self.tree_root(), key@, self.tree_nodes().len());
                }
                Some(&arena.node(i).value)
            },
        }
    }

    /// A copy of the value stored under `key`.
    fn find_and_clone(&self, key: &String) -> (r: Option<V>) where V: Clone
        ensures
            match lookup(self.tree_nodes(), self.tree_root(), key@) {
                None => r is None,
                Some(i) => r matches Some(v) && cloned(self.tree_nodes()[i as int].value, v),
            },
    {
        match self.find(key) {
            None => None,
            Some(v) => Some(v.clone()),
        }
    }

    /// Replaces the value of the node found for `key`; the links stay. A
    /// key that is not found leaves the tree as it is.
    fn update(&mut self, key: &String, value: V) -> (r: Result<(), String>)
        requires
            old(self).valid(),
        ensures
            final(self).valid(),
            old(self).in_order() ==> final(self).in_order(),
            final(self).tree_root() == old(self).tree_root(),
            match lookup(old(self).tree_nodes(), old(self).tree_root(), key@) {
                None => {
                    &&& r matches Err(e) && e@ == not_found_message(key@)
                    &&& *final(self) == *old(self)
                },
                Some(i) => {
                    &&& r is Ok
                    &&& final(self).tree_nodes() == set_value(old(self).tree_nodes(), i as int, value)
                },
            },
    {
        match self.find_node(key) {
            None => {
                let mut e = String::from_str("node=");
                e.append(key.as_str());
                e.append(" not exists");
                Err(e)
            },
            Some(i) => {
                proof {
                    lemma_search_in_range(self.tree_nodes(), self.tree_root(), key@, self.tree_nodes().len());
                }
                self.replace_value(i, value);
                Ok(())
            },
        }
    }

    /// Adds `value` under `key`.
    fn add(&mut self, key: String, value: V)
        requires
            old(self).valid(),
            old(self).tree_nodes().len() < MAX_NODES,
        ensures
            final(self).valid(),
            old(self).in_order() ==> final(self).in_order(),
            final(self).placed(
                *old(self),
                (BinaryNode { key: key, value: value, top: None, left: None, right: None }),
            ),
            final(self).tree_nodes().len() == old(self).tree_nodes().len() + 1,
            final(self).tree_nodes()[old(self).tree_nodes().len() as int].key == key,
            final(self).tree_nodes()[old(self).tree_nodes().len() as int].value == value,
            forall|i: int|
                #![trigger final(self).tree_nodes()[i]]
                0 <= i < old(self).tree_nodes().len() ==> final(self).tree_nodes()[i].key == old(
                    self,
                ).tree_nodes()[i].key && final(self).tree_nodes()[i].value == old(
                    self,
                ).tree_nodes()[i].value,
    {
        self.add_node(BinaryNode::new(key, value));
    }

    /// Height of the tree: -1 when empty, 0 for a single node.
    fn height(&self) -> (r: i32)
        requires
            self.valid(),
        ensures
            r == height_at(self.tree_nodes(), self.tree_root()),
    {
        proof {
            self.lemma_valid_bounds();
        }
        let arena = self.arena();
        match self.root() {
            None => -1,
            Some(r) => arena.node(r).height(arena),
        }
    }

    /// The same as `height`.
    fn depth(&self) -> (r: i32)
        requires
            self.valid(),
        ensures
            r == height_at(self.tree_nodes(), self.tree_root()),
    {
        self.height()
    }
}

} // verus!
