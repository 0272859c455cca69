//! The ordered binary search tree.

use vstd::prelude::*;

use crate::order::Cmp;
use crate::order::TreeKey;
use crate::order::key_lt;
use crate::order::lemma_key_lt_transitive;

verus! {

/// One node of the tree: a key, its value, and two owned subtrees.
///
/// Every subtree, including an empty one, is itself a [`BST`], so absence of
/// a child is represented uniformly by an empty tree rather than by a
/// separate sentinel type.
#[derive(PartialEq, Eq, Debug)]
struct Node<K: TreeKey, V> {
    key: K,
    value: V,
    left: BST<K, V>,
    right: BST<K, V>,
}

/// An ordered map from keys to values, stored as an unbalanced binary search
/// tree of singly-owned nodes.
///
/// The tree is specified against its abstract view, a `Map` from key views
/// to values.  Lookup and insertion walk the tree iteratively, and disposal
/// releases all nodes through an explicit work-list, so arbitrarily deep
/// trees are handled without deep call-stack recursion.
#[derive(PartialEq, Eq, Debug)]
pub struct BST<K: TreeKey, V> {
    node: Option<Box<Node<K, V>>>,
}

impl<K: TreeKey, V> BST<K, V> {
    /// The map this tree represents: every key view in the tree, paired with
    /// its value.
    pub closed spec fn as_map(self) -> Map<K::V, V>
        decreases self,
    {
        match self.node {
            None => Map::empty(),
            Some(n) => n.left.as_map().union_prefer_right(n.right.as_map()).insert(
                n.key@,
                n.value,
            ),
        }
    }

    /// The binary-search-order invariant: at every node, all keys of the left
    /// subtree are strictly below the node's key and all keys of the right
    /// subtree strictly above it, so no key occurs twice.
    pub closed spec fn well_formed(self) -> bool
        decreases self,
    {
        match self.node {
            None => true,
            Some(n) => {
                &&& (forall|k: K::V|
                    #[trigger] n.left.as_map().dom().contains(k) ==> key_lt::<K>(k, n.key@))
                &&& (forall|k: K::V|
                    #[trigger] n.right.as_map().dom().contains(k) ==> key_lt::<K>(n.key@, k))
                &&& n.left.well_formed()
                &&& n.right.well_formed()
            },
        }
    }

    /// Number of levels of nodes; used as a termination measure for the
    /// iterative walks.
    pub closed spec fn height(self) -> nat
        decreases self,
    {
        match self.node {
            None => 0,
            Some(n) => 1 + if n.left.height() > n.right.height() {
                n.left.height()
            } else {
                n.right.height()
            },
        }
    }
}

impl<K: TreeKey, V> View for BST<K, V> {
    type V = Map<K::V, V>;

    open spec fn view(&self) -> Map<K::V, V> {
        self.as_map()
    }
}

impl<K: TreeKey, V> BST<K, V> {
    /// The tree with no nodes, as a mathematical value.
    pub closed spec fn spec_empty() -> BST<K, V> {
        BST { node: None }
    }

    /// The tree whose single root node holds exactly `key` and `value` and
    /// owns `left` and `right` verbatim as its children, as a mathematical
    /// value.
    pub closed spec fn spec_new(key: K, value: V, left: BST<K, V>, right: BST<K, V>) -> BST<
        K,
        V,
    > {
        BST { node: Some(Box::new(Node { key, value, left, right })) }
    }

    /// A tree with no nodes: the empty map.
    pub fn empty() -> (tree: BST<K, V>)
        ensures
            tree == Self::spec_empty(),
            tree@ == Map::<K::V, V>::empty(),
            tree.well_formed(),
    {
        BST { node: None }
    }

    /// A tree whose root owns `left` and `right` verbatim as its children.
    ///
    /// The caller is responsible for the search-order invariant of the
    /// composed result; the operation itself does not validate it.  The
    /// second clause says when the responsibility is met: the result is
    /// well formed exactly when both subtrees are and every left key lies
    /// strictly below `key`, every right key strictly above it.
    pub fn new(key: K, value: V, left: BST<K, V>, right: BST<K, V>) -> (tree: BST<K, V>)
        ensures
            tree == Self::spec_new(key, value, left, right),
            tree@ == left@.union_prefer_right(right@).insert(key@, value),
            tree.well_formed() <==> (left.well_formed() && right.well_formed() && (forall|k: K::V|
                #[trigger] left@.dom().contains(k) ==> key_lt::<K>(k, key@)) && (forall|k: K::V|
                #[trigger] right@.dom().contains(k) ==> key_lt::<K>(key@, k))),
    {
        let tree = BST { node: Some(Box::new(Node { key, value, left, right })) };
        proof {
            let n = tree.node.unwrap();
            assert(n.left == left);
            assert(n.right == right);
            assert(tree.well_formed() == ((forall|k: K::V|
                #[trigger] n.left.as_map().dom().contains(k) ==> key_lt::<K>(k, n.key@))
                && (forall|k: K::V|
                #[trigger] n.right.as_map().dom().contains(k) ==> key_lt::<K>(n.key@, k))
                && n.left.well_formed() && n.right.well_formed()));
        }
        tree
    }

    /// A tree with one node and two empty children: the one-entry map.
    pub fn singleton(key: K, value: V) -> (tree: BST<K, V>)
        ensures
            tree == Self::spec_new(key, value, Self::spec_empty(), Self::spec_empty()),
            tree@ == Map::<K::V, V>::empty().insert(key@, value),
            tree.well_formed(),
    {
        let tree = BST::new(key, value, BST::empty(), BST::empty());
        proof {
            assert(Map::<K::V, V>::empty().union_prefer_right(Map::<K::V, V>::empty())
                =~= Map::<K::V, V>::empty());
        }
        tree
    }

    /// Whether the tree has no nodes, which is exactly when its map is empty.
    pub fn is_empty(&self) -> (r: bool)
        ensures
            r <==> self@ == Map::<K::V, V>::empty(),
            r <==> *self == Self::spec_empty(),
    {
        proof {
            if let Some(n) = &self.node {
                assert(self.as_map().dom().contains(n.key@));
                assert(!Map::<K::V, V>::empty().dom().contains(n.key@));
            }
        }
        self.node.is_none()
    }
}

/// A disjoint union of finite sets is as large as the two parts together.
proof fn lemma_len_disjoint_union<A>(s1: Set<A>, s2: Set<A>)
    requires
        s1.finite(),
        s2.finite(),
        s1.disjoint(s2),
    ensures
        s1.union(s2).len() == s1.len() + s2.len(),
        s1.union(s2).finite(),
    decreases s1.len(),
{
    if s1.is_empty() {
        assert(s1.union(s2) =~= s2);
    } else {
        let a = s1.choose();
        assert(s1.union(s2).remove(a) =~= s1.remove(a).union(s2));
        lemma_len_disjoint_union::<A>(s1.remove(a), s2);
        assert(s1.union(s2) =~= s1.union(s2).remove(a).insert(a));
    }
}

impl<K: TreeKey, V> BST<K, V> {
    /// The tree holds finitely many keys.
    pub proof fn lemma_finite(self)
        ensures
            self@.dom().finite(),
        decreases self,
    {
        if let Some(n) = self.node {
            n.left.lemma_finite();
            n.right.lemma_finite();
            assert(self.as_map().dom() =~= n.left.as_map().dom().union(
                n.right.as_map().dom(),
            ).insert(n.key@));
            vstd::set_lib::lemma_set_union_finite_iff(
                n.left.as_map().dom(),
                n.right.as_map().dom(),
            );
        }
    }

    /// In a well-formed tree with a root, the key count is one more than the
    /// counts of the two subtrees: the root key occurs in neither subtree and
    /// the subtrees share no key.
    proof fn lemma_dom_len_parts(self)
        requires
            self.node is Some,
            self.well_formed(),
        ensures
            self@.dom().len() == 1 + self.node.unwrap().left@.dom().len()
                + self.node.unwrap().right@.dom().len(),
    {
        let n = self.node.unwrap();
        let ld = n.left.as_map().dom();
        let rd = n.right.as_map().dom();
        n.left.lemma_finite();
        n.right.lemma_finite();
        assert forall|k: K::V| !(ld.contains(k) && rd.contains(k)) by {
            if ld.contains(k) && rd.contains(k) {
                K::le_antisymmetric(k, n.key@);
            }
        }
        assert(ld.disjoint(rd));
        lemma_len_disjoint_union(ld, rd);
        assert(self.as_map().dom() =~= ld.union(rd).insert(n.key@));
        assert(!ld.union(rd).contains(n.key@));
    }
}

impl<K: TreeKey, V> BST<K, V> {
    /// A reference to the value stored at `key`, or `None` if the key is
    /// absent.  The walk is iterative: a single cursor is reassigned at each
    /// level, so the call stack stays flat however deep the tree is.
    pub fn lookup(&self, key: K) -> (r: Option<&V>)
        requires
            self.well_formed(),
        ensures
            r == (if self@.dom().contains(key@) {
                Some(&self@[key@])
            } else {
                None::<&V>
            }),
    {
        let mut curr: &BST<K, V> = self;
        loop
            invariant
                curr.well_formed(),
                curr.as_map().dom().contains(key@) == self@.dom().contains(key@),
                curr.as_map().dom().contains(key@) ==> curr.as_map()[key@] == self@[key@],
            decreases curr.height(),
        {
            match &curr.node {
                None => {
                    return None;
                },
                Some(n) => {
                    match key.compare(&n.key) {
                        Cmp::Equal => {
                            proof {
                                assert(!n.left.as_map().dom().contains(key@));
                                assert(!n.right.as_map().dom().contains(key@));
                            }
                            return Some(&n.value);
                        },
                        Cmp::Less => {
                            proof {
                                if n.right.as_map().dom().contains(key@) {
                                    K::le_antisymmetric(key@, n.key@);
                                }
                            }
                            curr = &n.left;
                        },
                        Cmp::Greater => {
                            proof {
                                if n.left.as_map().dom().contains(key@) {
                                    K::le_antisymmetric(key@, n.key@);
                                }
                            }
                            curr = &n.right;
                        },
                    }
                },
            }
        }
    }

    /// Whether `key` is present in the tree.
    pub fn contains(&self, key: K) -> (r: bool)
        requires
            self.well_formed(),
        ensures
            r == self@.dom().contains(key@),
    {
        self.lookup(key).is_some()
    }

    /// The number of nodes, which in a well-formed tree is the number of
    /// distinct keys.  The bound on the key count is a machine limit: the
    /// count is returned as a `usize`.  The count is taken iteratively over
    /// an explicit work-list of pending subtrees, so even a degenerate
    /// chain is counted without deep call-stack recursion.
    pub fn size(&self) -> (n: usize)
        requires
            self.well_formed(),
            self@.dom().len() <= usize::MAX,
        ensures
            n == self@.dom().len(),
    {
        let mut acc: usize = 0;
        let mut stack: Vec<&BST<K, V>> = Vec::new();
        stack.push(self);
        proof {
            lemma_size_stack_push(Seq::<&BST<K, V>>::empty(), self);
        }
        loop
            invariant
                forall|i: int| 0 <= i < stack@.len() ==> (#[trigger] stack@[i]).well_formed(),
                acc + stack_doms(stack@) == self@.dom().len(),
                self@.dom().len() <= usize::MAX,
            decreases 2 * stack_counts(stack@) + stack@.len(),
        {
            let ghost stack0 = stack@;
            match stack.pop() {
                None => {
                    return acc;
                },
                Some(t) => {
                    match &t.node {
                        None => {
                            proof {
                                assert(t@.dom() =~= Set::<K::V>::empty());
                            }
                        },
                        Some(nd) => {
                            proof {
                                t.lemma_dom_len_parts();
                                assert(t.count() == 1 + nd.left.count() + nd.right.count());
                            }
                            acc = acc + 1;
                            proof {
                                lemma_size_stack_push(stack@, &nd.left);
                            }
                            stack.push(&nd.left);
                            proof {
                                lemma_size_stack_push(stack@, &nd.right);
                            }
                            stack.push(&nd.right);
                        },
                    }
                },
            }
        }
    }
}

/// Keys held by all pending subtrees of a counting work-list.
spec fn stack_doms<K: TreeKey, V>(s: Seq<&BST<K, V>>) -> nat
    decreases s.len(),
{
    if s.len() == 0 {
        0
    } else {
        stack_doms(s.drop_last()) + s.last()@.dom().len()
    }
}

/// Nodes held by all pending subtrees of a counting work-list.
spec fn stack_counts<K: TreeKey, V>(s: Seq<&BST<K, V>>) -> nat
    decreases s.len(),
{
    if s.len() == 0 {
        0
    } else {
        stack_counts(s.drop_last()) + s.last().count()
    }
}

/// Appending a subtree to a counting work-list adds exactly its keys and
/// its nodes.
proof fn lemma_size_stack_push<K: TreeKey, V>(s: Seq<&BST<K, V>>, t: &BST<K, V>)
    ensures
        stack_doms(s.push(t)) == stack_doms(s) + t@.dom().len(),
        stack_counts(s.push(t)) == stack_counts(s) + t.count(),
{
    assert(s.push(t).drop_last() =~= s);
    assert(s.push(t).last() == t);
}

impl<K: TreeKey, V> BST<K, V> {
    /// Step a cursor into the left child of the root node, relating the
    /// eventual value of the whole tree to the eventual value of the child.
    fn left_mut(t: &mut BST<K, V>) -> (r: &mut BST<K, V>)
        requires
            old(t).node is Some,
        ensures
            *r == old(t).node.unwrap().left,
            *final(t) == (BST {
                node: Some(Box::new(Node {
                    key: old(t).node.unwrap().key,
                    value: old(t).node.unwrap().value,
                    left: *final(r),
                    right: old(t).node.unwrap().right,
                })),
            }),
    {
        match &mut t.node {
            Some(boxed) => &mut boxed.left,
            None => vstd::pervasive::unreached(),
        }
    }

    /// Step a cursor into the right child of the root node.
    fn right_mut(t: &mut BST<K, V>) -> (r: &mut BST<K, V>)
        requires
            old(t).node is Some,
        ensures
            *r == old(t).node.unwrap().right,
            *final(t) == (BST {
                node: Some(Box::new(Node {
                    key: old(t).node.unwrap().key,
                    value: old(t).node.unwrap().value,
                    left: old(t).node.unwrap().left,
                    right: *final(r),
                })),
            }),
    {
        match &mut t.node {
            Some(boxed) => &mut boxed.right,
            None => vstd::pervasive::unreached(),
        }
    }
}

/// Whether `k` lies strictly inside the open interval given by the optional
/// bounds `lo` and `hi`; the interval followed by the cursor of an insertion.
spec fn in_bounds<K: TreeKey>(lo: Option<K::V>, hi: Option<K::V>, k: K::V) -> bool {
    &&& (match lo {
        Some(l) => key_lt::<K>(l, k),
        None => true,
    })
    &&& (match hi {
        Some(h) => key_lt::<K>(k, h),
        None => true,
    })
}

impl<K: TreeKey, V> BST<K, V> {
    /// What insertion does to the structure itself: along the directed walk,
    /// an equal key has its value replaced in place, the key and both
    /// subtrees kept; an empty position has a singleton node grafted; all
    /// nodes off the walk are untouched.
    pub closed spec fn spec_update(self, key: K, value: V) -> BST<K, V>
        decreases self,
    {
        match self.node {
            None => BST {
                node: Some(Box::new(Node {
                    key,
                    value,
                    left: BST { node: None },
                    right: BST { node: None },
                })),
            },
            Some(n) => if n.key@ == key@ {
                BST {
                    node: Some(Box::new(Node { key: n.key, value, left: n.left, right: n.right })),
                }
            } else if key_lt::<K>(key@, n.key@) {
                BST {
                    node: Some(Box::new(Node {
                        key: n.key,
                        value: n.value,
                        left: n.left.spec_update(key, value),
                        right: n.right,
                    })),
                }
            } else {
                BST {
                    node: Some(Box::new(Node {
                        key: n.key,
                        value: n.value,
                        left: n.left,
                        right: n.right.spec_update(key, value),
                    })),
                }
            },
        }
    }
}

impl<K: TreeKey, V> BST<K, V> {
    /// How the structural update unfolds, stated over the public
    /// constructors' mathematical values: updating the empty tree grafts a
    /// singleton node.
    pub proof fn lemma_spec_update_empty(key: K, value: V)
        ensures
            Self::spec_empty().spec_update(key, value) == Self::spec_new(
                key,
                value,
                Self::spec_empty(),
                Self::spec_empty(),
            ),
    {
    }

    /// How the structural update unfolds at a node: an equal key has its
    /// value replaced in place, the node's key and both subtrees kept; a
    /// smaller key updates the left subtree and a larger one the right,
    /// with everything else untouched.
    pub proof fn lemma_spec_update_node(
        k0: K,
        v0: V,
        left: BST<K, V>,
        right: BST<K, V>,
        key: K,
        value: V,
    )
        ensures
            key@ == k0@ ==> Self::spec_new(k0, v0, left, right).spec_update(key, value)
                == Self::spec_new(k0, value, left, right),
            key_lt::<K>(key@, k0@) ==> Self::spec_new(k0, v0, left, right).spec_update(key, value)
                == Self::spec_new(k0, v0, left.spec_update(key, value), right),
            key@ != k0@ && !key_lt::<K>(key@, k0@) ==> Self::spec_new(k0, v0, left, right)
                .spec_update(key, value) == Self::spec_new(
                k0,
                v0,
                left,
                right.spec_update(key, value),
            ),
    {
    }

    /// Overwriting a key that is already present alters no structure: the
    /// updated tree keeps the in-order key sequence and the height of the
    /// old one; with the map clause of `insert`, only the stored value at
    /// that key changes.
    pub proof fn lemma_update_in_place(self, key: K, value: V)
        requires
            self.well_formed(),
            self@.dom().contains(key@),
        ensures
            self.spec_update(key, value).in_order() == self.in_order(),
            self.spec_update(key, value).height() == self.height(),
        decreases self,
    {
        let n = self.node.unwrap();
        let u = self.spec_update(key, value);
        if n.key@ == key@ {
            assert(u.in_order() == n.left.in_order() + seq![n.key@] + n.right.in_order());
        } else if key_lt::<K>(key@, n.key@) {
            if n.right.as_map().dom().contains(key@) {
                K::le_antisymmetric(key@, n.key@);
            }
            assert(n.left.as_map().dom().contains(key@));
            n.left.lemma_update_in_place(key, value);
            assert(u.in_order() == n.left.spec_update(key, value).in_order() + seq![n.key@]
                + n.right.in_order());
        } else {
            if n.left.as_map().dom().contains(key@) {
                K::le_antisymmetric(key@, n.key@);
            }
            assert(n.right.as_map().dom().contains(key@));
            n.right.lemma_update_in_place(key, value);
            assert(u.in_order() == n.left.in_order() + seq![n.key@] + n.right.spec_update(
                key,
                value,
            ).in_order());
        }
    }
}

impl<K: TreeKey, V> BST<K, V> {
    /// Insert `key` with `value`: if the key is already present its value is
    /// overwritten in place and the structure is unchanged, otherwise a new
    /// singleton node is grafted at the empty position that the directed
    /// walk reaches.  The walk is iterative, reassigning a single cursor
    /// into the owning structure at each level, so insertion into a deeply
    /// chained tree does not consume one call-stack frame per level.
    pub fn insert(&mut self, key: K, value: V)
        requires
            old(self).well_formed(),
        ensures
            *final(self) == old(self).spec_update(key, value),
            final(self).well_formed(),
            final(self)@ == old(self)@.insert(key@, value),
    {
        let ghost old_map = self@;
        let ghost old_tree = *self;
        let mut tree = BST { node: self.node.take() };
        proof {
            assert(tree == *old(self));
            assert forall|m: Map<K::V, V>|
                #[trigger] Map::<K::V, V>::empty().union_prefer_right(m) == m by {
                assert(Map::<K::V, V>::empty().union_prefer_right(m) =~= m);
            }
        }
        let ghost mut lo: Option<K::V> = None;
        let ghost mut hi: Option<K::V> = None;
        let ghost mut rest: Map<K::V, V> = Map::empty();
        let ghost mut wrap: spec_fn(BST<K, V>) -> BST<K, V> = |t: BST<K, V>| t;
        let mut curr: &mut BST<K, V> = &mut tree;
        loop
            invariant
                (*curr).well_formed(),
                forall|k: K::V|
                    #[trigger] (*curr).as_map().dom().contains(k) ==> in_bounds::<K>(lo, hi, k),
                in_bounds::<K>(lo, hi, key@),
                rest.union_prefer_right((*curr).as_map()) == old_map,
                ((*final(curr)).well_formed() && (forall|k: K::V|
                    #[trigger] (*final(curr)).as_map().dom().contains(k) ==> in_bounds::<K>(
                        lo,
                        hi,
                        k,
                    ))) ==> (after_borrow(tree).well_formed() && after_borrow(tree).as_map()
                    == rest.union_prefer_right((*final(curr)).as_map())),
                old_tree.spec_update(key, value) == wrap((*curr).spec_update(key, value)),
                after_borrow(tree) == wrap(*final(curr)),
            ensures
                (*curr).node is Some ==> (*curr).node.unwrap().key@ == key@,
                (*curr).well_formed(),
                forall|k: K::V|
                    #[trigger] (*curr).as_map().dom().contains(k) ==> in_bounds::<K>(lo, hi, k),
                in_bounds::<K>(lo, hi, key@),
                rest.union_prefer_right((*curr).as_map()) == old_map,
                ((*final(curr)).well_formed() && (forall|k: K::V|
                    #[trigger] (*final(curr)).as_map().dom().contains(k) ==> in_bounds::<K>(
                        lo,
                        hi,
                        k,
                    ))) ==> (after_borrow(tree).well_formed() && after_borrow(tree).as_map()
                    == rest.union_prefer_right((*final(curr)).as_map())),
                old_tree.spec_update(key, value) == wrap((*curr).spec_update(key, value)),
                after_borrow(tree) == wrap(*final(curr)),
            decreases (*curr).height(),
        {
            let ghost t0 = *curr;
            let ghost cmap = (*curr).as_map();
            let ghost rest0 = rest;
            let ghost lo0 = lo;
            let ghost hi0 = hi;
            let c: Option<Cmp> = match &curr.node {
                None => Option::None,
                Some(boxed) => Option::Some(key.compare(&boxed.key)),
            };
            match c {
                Option::None => {
                    break;
                },
                Option::Some(Cmp::Equal) => {
                    break;
                },
                Option::Some(Cmp::Less) => {
                    proof {
                        hi = Some(t0.node.unwrap().key@);
                        rest = rest.union_prefer_right(
                            t0.node.unwrap().right.as_map().insert(
                                t0.node.unwrap().key@,
                                t0.node.unwrap().value,
                            ),
                        );
                        let n0 = t0.node.unwrap();
                        let k0 = n0.key@;
                        let lmap = n0.left.as_map();
                        let rmap = n0.right.as_map();
                        // The walk turns left, so the structural update
                        // happens inside the left child; the context grows
                        // by the root node with its right subtree.
                        let wrap0 = wrap;
                        wrap = |t: BST<K, V>| wrap0(BST {
                            node: Some(Box::new(Node {
                                key: n0.key,
                                value: n0.value,
                                left: t,
                                right: n0.right,
                            })),
                        });
                        assert forall|t: BST<K, V>| #[trigger] wrap(t) == wrap0(BST {
                            node: Some(Box::new(Node {
                                key: n0.key,
                                value: n0.value,
                                left: t,
                                right: n0.right,
                            })),
                        }) by {}
                        assert(t0.spec_update(key, value) == (BST {
                            node: Some(Box::new(Node {
                                key: n0.key,
                                value: n0.value,
                                left: n0.left.spec_update(key, value),
                                right: n0.right,
                            })),
                        }));
                        assert(old_tree.spec_update(key, value) == wrap(n0.left.spec_update(
                            key,
                            value,
                        )));
                        // Keys of both subtrees obey the old bounds; the left
                        // keys moreover lie below the root key, which is the
                        // new upper bound, and the subtrees share no key.
                        assert(cmap.dom().contains(k0));
                        assert forall|k2: K::V| #[trigger] lmap.dom().contains(k2) implies
                            in_bounds::<K>(lo0, hi0, k2) && !rmap.dom().contains(k2) && k2 != k0
                            && in_bounds::<K>(lo, hi, k2) by {
                            assert(cmap.dom().contains(k2));
                            if rmap.dom().contains(k2) {
                                K::le_antisymmetric(k2, k0);
                            }
                        }
                        assert forall|k2: K::V| #[trigger] rmap.dom().contains(k2) implies
                            in_bounds::<K>(lo0, hi0, k2) && k2 != k0 by {
                            assert(cmap.dom().contains(k2));
                        }
                        // The entries set aside so far plus the current
                        // subtree still make up the map as it was at entry.
                        assert(rest.union_prefer_right(lmap) =~= rest0.union_prefer_right(cmap));
                        // Any well-formed subtree within the tightened bounds,
                        // grafted back in place of the left child, yields a
                        // well-formed whole within the old bounds carrying
                        // the combined entries.
                        assert forall|sub: BST<K, V>| #![trigger sub.as_map()]
                            (sub.well_formed() && (forall|k2: K::V|
                                #[trigger] sub.as_map().dom().contains(k2) ==> in_bounds::<K>(
                                    lo,
                                    hi,
                                    k2,
                                ))) implies {
                            let whole = BST::<K, V> {
                                node: Some(Box::new(Node {
                                    key: n0.key,
                                    value: n0.value,
                                    left: sub,
                                    right: n0.right,
                                })),
                            };
                            whole.well_formed() && (forall|k2: K::V|
                                #[trigger] whole.as_map().dom().contains(k2) ==> in_bounds::<K>(
                                    lo0,
                                    hi0,
                                    k2,
                                )) && rest0.union_prefer_right(whole.as_map())
                                == rest.union_prefer_right(sub.as_map())
                        } by {
                            let fm = sub.as_map();
                            let whole = BST::<K, V> {
                                node: Some(Box::new(Node {
                                    key: n0.key,
                                    value: n0.value,
                                    left: sub,
                                    right: n0.right,
                                })),
                            };
                            assert forall|k2: K::V| #[trigger] fm.dom().contains(k2) implies
                                in_bounds::<K>(lo0, hi0, k2) && !rmap.dom().contains(k2)
                                && k2 != k0 by {
                                assert(key_lt::<K>(k2, k0));
                                if hi0 is Some {
                                    lemma_key_lt_transitive::<K>(k2, k0, hi0.unwrap());
                                }
                                if rmap.dom().contains(k2) {
                                    K::le_antisymmetric(k2, k0);
                                }
                            }
                            assert(whole.well_formed());
                            assert(whole.as_map() == fm.union_prefer_right(rmap).insert(
                                k0,
                                n0.value,
                            ));
                            assert forall|k2: K::V|
                                #[trigger] whole.as_map().dom().contains(k2) implies in_bounds::<
                                K,
                            >(lo0, hi0, k2) by {
                                if k2 != k0 && !rmap.dom().contains(k2) {
                                    assert(fm.dom().contains(k2));
                                }
                            }
                            assert(rest0.union_prefer_right(whole.as_map()) =~= rest
                                .union_prefer_right(fm));
                        }
                    }
                    curr = BST::left_mut(curr);
                    proof {
                        // Name the eventual subtree's map, so that the
                        // quantified graft fact above applies to it.
                        assert((*final(curr)).as_map() == (*final(curr)).as_map());
                    }
                },
                Option::Some(Cmp::Greater) => {
                    proof {
                        lo = Some(t0.node.unwrap().key@);
                        rest = rest.union_prefer_right(
                            t0.node.unwrap().left.as_map().insert(
                                t0.node.unwrap().key@,
                                t0.node.unwrap().value,
                            ),
                        );
                        let n0 = t0.node.unwrap();
                        let k0 = n0.key@;
                        let lmap = n0.left.as_map();
                        let rmap = n0.right.as_map();
                        // The walk turns right; the context grows by the
                        // root node with its left subtree.
                        let wrap0 = wrap;
                        wrap = |t: BST<K, V>| wrap0(BST {
                            node: Some(Box::new(Node {
                                key: n0.key,
                                value: n0.value,
                                left: n0.left,
                                right: t,
                            })),
                        });
                        assert forall|t: BST<K, V>| #[trigger] wrap(t) == wrap0(BST {
                            node: Some(Box::new(Node {
                                key: n0.key,
                                value: n0.value,
                                left: n0.left,
                                right: t,
                            })),
                        }) by {}
                        if key_lt::<K>(key@, k0) {
                            K::le_antisymmetric(key@, k0);
                        }
                        assert(t0.spec_update(key, value) == (BST {
                            node: Some(Box::new(Node {
                                key: n0.key,
                                value: n0.value,
                                left: n0.left,
                                right: n0.right.spec_update(key, value),
                            })),
                        }));
                        assert(old_tree.spec_update(key, value) == wrap(n0.right.spec_update(
                            key,
                            value,
                        )));
                        assert(cmap.dom().contains(k0));
                        assert forall|k2: K::V| #[trigger] rmap.dom().contains(k2) implies
                            in_bounds::<K>(lo0, hi0, k2) && !lmap.dom().contains(k2) && k2 != k0
                            && in_bounds::<K>(lo, hi, k2) by {
                            assert(cmap.dom().contains(k2));
                            if lmap.dom().contains(k2) {
                                K::le_antisymmetric(k0, k2);
                            }
                        }
                        assert forall|k2: K::V| #[trigger] lmap.dom().contains(k2) implies
                            in_bounds::<K>(lo0, hi0, k2) && k2 != k0 by {
                            assert(cmap.dom().contains(k2));
                        }
                        assert(rest.union_prefer_right(rmap) =~= rest0.union_prefer_right(cmap));
                        assert forall|sub: BST<K, V>| #![trigger sub.as_map()]
                            (sub.well_formed() && (forall|k2: K::V|
                                #[trigger] sub.as_map().dom().contains(k2) ==> in_bounds::<K>(
                                    lo,
                                    hi,
                                    k2,
                                ))) implies {
                            let whole = BST::<K, V> {
                                node: Some(Box::new(Node {
                                    key: n0.key,
                                    value: n0.value,
                                    left: n0.left,
                                    right: sub,
                                })),
                            };
                            whole.well_formed() && (forall|k2: K::V|
                                #[trigger] whole.as_map().dom().contains(k2) ==> in_bounds::<K>(
                                    lo0,
                                    hi0,
                                    k2,
                                )) && rest0.union_prefer_right(whole.as_map())
                                == rest.union_prefer_right(sub.as_map())
                        } by {
                            let fm = sub.as_map();
                            let whole = BST::<K, V> {
                                node: Some(Box::new(Node {
                                    key: n0.key,
                                    value: n0.value,
                                    left: n0.left,
                                    right: sub,
                                })),
                            };
                            assert forall|k2: K::V| #[trigger] fm.dom().contains(k2) implies
                                in_bounds::<K>(lo0, hi0, k2) && !lmap.dom().contains(k2)
                                && k2 != k0 by {
                                assert(key_lt::<K>(k0, k2));
                                if lo0 is Some {
                                    lemma_key_lt_transitive::<K>(lo0.unwrap(), k0, k2);
                                }
                                if lmap.dom().contains(k2) {
                                    K::le_antisymmetric(k0, k2);
                                }
                            }
                            assert(whole.well_formed());
                            assert(whole.as_map() == lmap.union_prefer_right(fm).insert(
                                k0,
                                n0.value,
                            ));
                            assert forall|k2: K::V|
                                #[trigger] whole.as_map().dom().contains(k2) implies in_bounds::<
                                K,
                            >(lo0, hi0, k2) by {
                                if k2 != k0 && !lmap.dom().contains(k2) {
                                    assert(fm.dom().contains(k2));
                                }
                            }
                            assert(rest0.union_prefer_right(whole.as_map()) =~= rest
                                .union_prefer_right(fm));
                        }
                    }
                    curr = BST::right_mut(curr);
                    proof {
                        // Name the eventual subtree's map, so that the
                        // quantified graft fact above applies to it.
                        assert((*final(curr)).as_map() == (*final(curr)).as_map());
                    }
                },
            }
        }
        let ghost exit_t = *curr;
        let ghost exit_map = (*curr).as_map();
        let ghost key0 = key;
        let ghost val0 = value;
        match &mut curr.node {
            None => {
                curr.node = Some(Box::new(Node {
                    key,
                    value,
                    left: (BST { node: None }),
                    right: (BST { node: None }),
                }));
            },
            Some(boxed) => {
                boxed.value = value;
            },
        }
        proof {
            let fin = *curr;
            let fmap = fin.as_map();
            if exit_t.node is None {
                assert(exit_map == Map::<K::V, V>::empty());
                assert(fmap =~= exit_map.insert(key@, value));
                assert(fin.well_formed());
            } else {
                let n0 = exit_t.node.unwrap();
                assert(n0.key@ == key@);
                assert(fmap =~= exit_map.insert(key@, value));
                assert(fin.well_formed());
            }
            assert forall|k2: K::V| #[trigger] fmap.dom().contains(k2) implies in_bounds::<K>(
                lo,
                hi,
                k2,
            ) by {
                if k2 != key@ {
                    assert(exit_map.dom().contains(k2));
                }
            }
            assert(rest.union_prefer_right(fmap) =~= old_map.insert(key@, value));
            assert(fin == exit_t.spec_update(key0, val0));
            assert(old_tree.spec_update(key0, val0) == wrap(fin));
        }
        let ghost t_end = tree;
        let got = tree.node.take();
        proof {
            assert((BST::<K, V> { node: got }) == t_end);
        }
        self.node = got;
    }
}

/// Number of nodes below and including `b`.
spec fn node_total<K: TreeKey, V>(b: Box<Node<K, V>>) -> nat {
    1 + b.left.count() + b.right.count()
}

/// Number of nodes in an optional detached root.
spec fn opt_total<K: TreeKey, V>(c: Option<Box<Node<K, V>>>) -> nat {
    match c {
        None => 0,
        Some(b) => node_total(b),
    }
}

/// Number of nodes held by all entries of a work-list.
spec fn stack_total<K: TreeKey, V>(s: Seq<Box<Node<K, V>>>) -> nat
    decreases s.len(),
{
    if s.len() == 0 {
        0
    } else {
        stack_total(s.drop_last()) + node_total(s.last())
    }
}

/// Appending to a work-list adds exactly the appended entry's nodes.
proof fn lemma_stack_total_push<K: TreeKey, V>(s: Seq<Box<Node<K, V>>>, b: Box<Node<K, V>>)
    ensures
        stack_total(s.push(b)) == stack_total(s) + node_total(b),
{
    assert(s.push(b).drop_last() =~= s);
    assert(s.push(b).last() == b);
}

impl<K: TreeKey, V> BST<K, V> {
    /// Number of nodes in the tree.
    spec fn count(self) -> nat
        decreases self,
    {
        match self.node {
            None => 0,
            Some(n) => 1 + n.left.count() + n.right.count(),
        }
    }

    /// Empty the tree, releasing every node through an explicit last-in
    /// first-out work-list: the root node is detached and listed, then
    /// repeatedly a node is taken off the list, its children are detached
    /// onto the list, and the node itself is released with both child slots
    /// already empty.  No step recurses into a subtree, so the call stack
    /// stays flat even for a degenerate chain of millions of nodes, while
    /// the list grows only for nodes with two children.
    pub(crate) fn clear(&mut self)
        ensures
            *final(self) == Self::spec_empty(),
            final(self)@ == Map::<K::V, V>::empty(),
            final(self).well_formed(),
    {
        let mut curr: Option<Box<Node<K, V>>> = self.node.take();
        let mut stack: Vec<Box<Node<K, V>>> = Vec::new();
        loop
            decreases opt_total(curr) + stack_total(stack@),
        {
            match curr {
                None => {
                    break;
                },
                Some(mut node) => {
                    let ghost n0 = *node;
                    let ghost stack0 = stack@;
                    match node.left.node.take() {
                        Some(lb) => {
                            proof {
                                lemma_stack_total_push(stack@, lb);
                            }
                            stack.push(lb);
                        },
                        None => {},
                    }
                    match node.right.node.take() {
                        Some(rb) => {
                            proof {
                                lemma_stack_total_push(stack@, rb);
                            }
                            stack.push(rb);
                        },
                        None => {},
                    }
                    proof {
                        assert(stack_total(stack@) <= stack_total(stack0) + n0.left.count()
                            + n0.right.count());
                    }
                    curr = stack.pop();
                },
            }
        }
    }
}

impl<K: TreeKey, V> Drop for BST<K, V> {
    /// The teardown hook: when a tree's lifetime ends, every node it owns is
    /// released by the verified iterative `clear`, never by recursive field
    /// drops, so disposal of a deep chain cannot exhaust the call stack.
    /// The body stands outside verification only because Verus imposes a
    /// no-unwind, no-invariant discipline on `drop` that the standard
    /// library's `Vec` specifications cannot discharge; it does nothing but
    /// call the verified `clear`.
    #[verifier::external_body]
    fn drop(&mut self)
        opens_invariants none
        no_unwind
    {
        self.clear();
    }
}

impl<K: TreeKey, V> BST<K, V> {
    /// The keys of the tree from left to right: left subtree, node, right
    /// subtree, at every level.
    pub closed spec fn in_order(self) -> Seq<K::V>
        decreases self,
    {
        match self.node {
            None => Seq::empty(),
            Some(n) => n.left.in_order() + seq![n.key@] + n.right.in_order(),
        }
    }

    /// In a well-formed tree the in-order key sequence is strictly
    /// increasing, and it carries exactly the tree's keys.  Together with
    /// the contracts of `empty` and `insert` this says that the search
    /// order holds after any sequence of insertions into an empty tree.
    pub proof fn lemma_in_order_sorted(self)
        requires
            self.well_formed(),
        ensures
            forall|i: int, j: int|
                0 <= i < j < self.in_order().len() ==> key_lt::<K>(
                    self.in_order()[i],
                    self.in_order()[j],
                ),
            forall|k: K::V| self.in_order().contains(k) <==> self@.dom().contains(k),
        decreases self,
    {
        if let Some(n) = self.node {
            n.left.lemma_in_order_sorted();
            n.right.lemma_in_order_sorted();
            let l = n.left.in_order();
            let r = n.right.in_order();
            let s = self.in_order();
            let k0 = n.key@;
            assert(s == l + seq![k0] + r);
            assert(s.len() == l.len() + 1 + r.len());
            assert forall|i: int| 0 <= i < l.len() implies s[i] == l[i] && key_lt::<K>(
                s[i],
                k0,
            ) by {
                assert(l.contains(l[i]));
                assert(n.left.as_map().dom().contains(l[i]));
            }
            assert(s[l.len() as int] == k0);
            assert forall|j: int| l.len() < j < s.len() implies s[j] == r[j - l.len() - 1]
                && key_lt::<K>(k0, s[j]) by {
                assert(r.contains(r[j - l.len() - 1]));
                assert(n.right.as_map().dom().contains(r[j - l.len() - 1]));
            }
            assert forall|i: int, j: int| 0 <= i < j < s.len() implies key_lt::<K>(
                s[i],
                s[j],
            ) by {
                if j < l.len() {
                } else if i < l.len() && j == l.len() {
                } else if i < l.len() && l.len() < j {
                    lemma_key_lt_transitive::<K>(s[i], k0, s[j]);
                } else if i == l.len() && l.len() < j {
                } else {
                    assert(key_lt::<K>(r[i - l.len() - 1], r[j - l.len() - 1]));
                }
            }
            assert(self@.dom() =~= n.left@.dom().union(n.right@.dom()).insert(k0));
            assert forall|k: K::V| s.contains(k) implies self@.dom().contains(k) by {
                let i = choose|i: int| 0 <= i < s.len() && s[i] == k;
                if i < l.len() {
                    assert(l.contains(l[i]));
                } else if i > l.len() {
                    assert(r.contains(r[i - l.len() - 1]));
                }
            }
            assert forall|k: K::V| self@.dom().contains(k) implies s.contains(k) by {
                if n.left@.dom().contains(k) {
                    assert(l.contains(k));
                    let i = choose|i: int| 0 <= i < l.len() && l[i] == k;
                    assert(l[i] == k);
                    assert(s[i] == k);
                } else if n.right@.dom().contains(k) {
                    assert(r.contains(k));
                    let i = choose|i: int| 0 <= i < r.len() && r[i] == k;
                    assert(r[i] == k);
                    assert(s[i + l.len() + 1] == k);
                } else {
                    assert(s[l.len() as int] == k);
                }
            }
        }
    }
}

/// Insertion reads back: after writing `v` at `k` into a tree map, `k` is
/// present and holds `v` (so the most recent write to a key wins), while
/// every other key keeps its former value and presence (so a key never
/// written stays absent).  The contracts of `empty`, `insert`, `lookup` and
/// `contains` carry this from maps to trees.
pub proof fn lemma_insert_lookup<K: TreeKey, V>(m: Map<K::V, V>, k: K::V, v: V, other: K::V)
    ensures
        m.insert(k, v).dom().contains(k),
        m.insert(k, v)[k] == v,
        other != k ==> m.insert(k, v).dom().contains(other) == m.dom().contains(other),
        other != k && m.dom().contains(other) ==> m.insert(k, v)[other] == m[other],
{
}

/// Inserting a fresh key grows the key count by one, and re-inserting an
/// existing key leaves the count unchanged: with the contract of `size`,
/// the node count equals the number of distinct keys ever inserted,
/// whatever the insertion order.
pub proof fn lemma_insert_count<K: TreeKey, V>(m: Map<K::V, V>, k: K::V, v: V)
    requires
        m.dom().finite(),
    ensures
        m.dom().contains(k) ==> m.insert(k, v).dom().len() == m.dom().len(),
        !m.dom().contains(k) ==> m.insert(k, v).dom().len() == m.dom().len() + 1,
{
    if m.dom().contains(k) {
        assert(m.insert(k, v).dom() =~= m.dom());
    } else {
        assert(m.insert(k, v).dom() =~= m.dom().insert(k));
    }
}

/// The empty map holds nothing: with the contracts of `empty`, `is_empty`,
/// `size` and `contains`, a freshly created tree is empty, has zero keys
/// and contains no key at all.
pub proof fn lemma_empty_holds_nothing<K: TreeKey, V>(k: K::V)
    ensures
        !Map::<K::V, V>::empty().dom().contains(k),
        Map::<K::V, V>::empty().dom().len() == 0,
{
    assert(Map::<K::V, V>::empty().dom() =~= Set::empty());
}

} // verus!
