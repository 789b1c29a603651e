//! An unbalanced binary search tree holding a set of values: smaller values
//! to the left, equal-or-greater values to the right. Ownership is
//! tree-structured — each subtree exclusively owns its children — so no
//! back-references are needed.
//!
//! The element type carries a verified total order: a specification-level
//! relation `le`, the laws that make it a total order, and an executable
//! three-way comparison proved to answer according to `le`.

use vstd::prelude::*;

verus! {

/// The outcome of a three-way comparison.
pub enum Rank {
    Lower,
    Same,
    Higher,
}

/// A total order on a value type: the relation `le`, its laws, and an
/// executable comparison that decides it.
pub trait TotalOrder: Sized {
    /// The ordering relation the tree is sorted by.
    spec fn le(self, other: Self) -> bool;

    /// Every value is ordered with itself.
    proof fn lemma_reflexive(a: Self)
        ensures
            a.le(a),
    ;

    /// Two values each at most the other are the same value.
    proof fn lemma_antisymmetric(a: Self, b: Self)
        requires
            a.le(b),
            b.le(a),
        ensures
            a == b,
    ;

    /// Ordering carries across a middle value.
    proof fn lemma_transitive(a: Self, b: Self, c: Self)
        requires
            a.le(b),
            b.le(c),
        ensures
            a.le(c),
    ;

    /// Decide how `self` stands to `other` in the order.
    fn rank(&self, other: &Self) -> (r: Rank)
        ensures
            match r {
                Rank::Lower => self.le(*other) && *self != *other,
                Rank::Same => *self == *other,
                Rank::Higher => other.le(*self) && *self != *other,
            },
    ;
}

impl TotalOrder for i32 {
    open spec fn le(self, other: Self) -> bool {
        self <= other
    }

    proof fn lemma_reflexive(a: Self) {
    }

    proof fn lemma_antisymmetric(a: Self, b: Self) {
    }

    proof fn lemma_transitive(a: Self, b: Self, c: Self) {
    }

    fn rank(&self, other: &Self) -> (r: Rank) {
        if *self < *other {
            Rank::Lower
        } else if *self == *other {
            Rank::Same
        } else {
            Rank::Higher
        }
    }
}

/// A binary search tree over a totally ordered value type. An empty tree
/// holds no value; a node created by insertion always does.
pub struct BinarySearchTree<T: TotalOrder> {
    value: Option<T>,
    left: Option<Box<BinarySearchTree<T>>>,
    right: Option<Box<BinarySearchTree<T>>>,
}

impl<T: TotalOrder> BinarySearchTree<T> {
    /// The set of values held by an optional subtree.
    pub closed spec fn opt_set(t: Option<Box<BinarySearchTree<T>>>) -> Set<T>
        decreases t,
    {
        match t {
            None => Set::empty(),
            Some(b) => b.as_set(),
        }
    }

    /// The set of values held by the tree.
    pub closed spec fn as_set(self) -> Set<T>
        decreases self,
    {
        match self.value {
            None => Set::empty(),
            Some(v) => Self::opt_set(self.left).union(Self::opt_set(self.right)).insert(v),
        }
    }

    /// The search ordering: values to the left are strictly below the node's
    /// value, values to the right at or above it, children are themselves
    /// well formed and never empty, and an empty root has no children.
    pub closed spec fn well_formed(self) -> bool
        decreases self,
    {
        match self.value {
            None => self.left is None && self.right is None,
            Some(v) => {
                &&& (forall|x: T|
                    #[trigger] Self::opt_set(self.left).contains(x) ==> x.le(v) && x != v)
                &&& (forall|x: T| #[trigger] Self::opt_set(self.right).contains(x) ==> v.le(x))
                &&& (self.left matches Some(l) ==> l.well_formed() && l.value is Some)
                &&& (self.right matches Some(r) ==> r.well_formed() && r.value is Some)
            },
        }
    }

    /// An empty tree.
    pub fn new() -> (tree: Self)
        ensures
            tree.well_formed(),
            tree.as_set() == Set::<T>::empty(),
    {
        BinarySearchTree { value: None, left: None, right: None }
    }

    /// Whether `value` is held by the tree.
    pub fn search(&self, value: T) -> (found: bool)
        requires
            self.well_formed(),
        ensures
            found == self.as_set().contains(value),
        decreases self,
    {
        match &self.value {
            None => false,
            Some(v) => match value.rank(v) {
                Rank::Same => true,
                Rank::Lower => {
                    proof {
                        if Self::opt_set(self.right).contains(value) {
                            T::lemma_antisymmetric(value, *v);
                        }
                    }
                    match &self.left {
                        Some(thing) => thing.search(value),
                        None => false,
                    }
                },
                Rank::Higher => {
                    proof {
                        if Self::opt_set(self.left).contains(value) {
                            T::lemma_antisymmetric(*v, value);
                        }
                    }
                    match &self.right {
                        Some(righty) => righty.search(value),
                        None => false,
                    }
                },
            },
        }
    }

    /// Insert `value` into an optional subtree, creating the node where the
    /// subtree is absent.
    fn insert_into(node: &mut Option<Box<BinarySearchTree<T>>>, value: T)
        requires
            old(node).is_some() ==> old(node).unwrap().well_formed() && old(
                node,
            ).unwrap().value is Some,
        ensures
            final(node).is_some(),
            final(node).unwrap().well_formed(),
            final(node).unwrap().value is Some,
            Self::opt_set(*final(node)) == Self::opt_set(*old(node)).insert(value),
            Self::opt_in_order(*final(node)).to_multiset() == Self::opt_in_order(
                *old(node),
            ).to_multiset().insert(value),
        decreases *old(node),
    {
        match node.take() {
            None => {
                *node = Some(
                    Box::new(BinarySearchTree { value: Some(value), left: None, right: None }),
                );
                proof {
                    assert(Self::opt_set(*node) =~= Self::opt_set(None).insert(value));
                    assert(Self::opt_in_order(None::<Box<BinarySearchTree<T>>>)
                        == Seq::<T>::empty());
                    assert(Self::opt_in_order(*node) =~= Seq::<T>::empty().push(value));
                    vstd::seq_lib::to_multiset_build(Seq::<T>::empty(), value);
                }
            },
            Some(mut key) => {
                (&mut *key).insert_nonempty(value);
                *node = Some(key);
            },
        }
    }

    /// Insert `value` into a tree that already holds a value at its root.
    fn insert_nonempty(&mut self, value: T)
        requires
            old(self).well_formed(),
            old(self).value is Some,
        ensures
            final(self).well_formed(),
            final(self).value is Some,
            final(self).as_set() == old(self).as_set().insert(value),
            final(self).in_order().to_multiset() == old(self).in_order().to_multiset().insert(
                value,
            ),
        decreases *old(self),
    {
        let go_left = match value.rank(self.value.as_ref().unwrap()) {
            Rank::Lower => true,
            Rank::Same => false,
            Rank::Higher => false,
        };
        let ghost root = self.value->Some_0;
        if go_left {
            Self::insert_into(&mut self.left, value);
            proof {
                assert forall|x: T| #[trigger] Self::opt_set(self.left).contains(x) implies x.le(
                    root,
                ) && x != root by {
                    if x != value {
                        assert(Self::opt_set(old(self).left).contains(x));
                    }
                }
                assert(self.as_set() =~= old(self).as_set().insert(value));
                lemma_concat_multiset_insert_left(
                    Self::opt_in_order(old(self).left),
                    Self::opt_in_order(self.left),
                    seq![root],
                    value,
                );
                lemma_concat_multiset_insert_left(
                    Self::opt_in_order(old(self).left) + seq![root],
                    Self::opt_in_order(self.left) + seq![root],
                    Self::opt_in_order(self.right),
                    value,
                );
            }
        } else {
            proof {
                if value == root {
                    T::lemma_reflexive(root);
                }
            }
            Self::insert_into(&mut self.right, value);
            proof {
                assert forall|x: T| #[trigger] Self::opt_set(self.right).contains(
                    x,
                ) implies root.le(x) by {
                    if x != value {
                        assert(Self::opt_set(old(self).right).contains(x));
                    }
                }
                assert(self.as_set() =~= old(self).as_set().insert(value));
                lemma_concat_multiset_insert_right(
                    Self::opt_in_order(self.left) + seq![root],
                    Self::opt_in_order(old(self).right),
                    Self::opt_in_order(self.right),
                    value,
                );
            }
        }
    }

    /// Insert `value`: smaller values descend to the left, equal or greater
    /// ones to the right.
    pub fn insert(&mut self, value: T)
        requires
            old(self).well_formed(),
        ensures
            final(self).well_formed(),
            final(self).as_set() == old(self).as_set().insert(value),
            final(self).in_order().to_multiset() == old(self).in_order().to_multiset().insert(
                value,
            ),
    {
        if self.value.is_none() {
            self.value = Some(value);
            proof {
                assert(self.as_set() =~= old(self).as_set().insert(value));
                assert(old(self).in_order() == Seq::<T>::empty());
                assert(self.in_order() =~= Seq::<T>::empty().push(value));
                vstd::seq_lib::to_multiset_build(Seq::<T>::empty(), value);
            }
        } else {
            self.insert_nonempty(value);
        }
    }

    /// The least value held by the tree, reached by walking left.
    pub fn minimum(&self) -> (r: Option<&T>)
        requires
            self.well_formed(),
        ensures
            match r {
                None => forall|x: T| !(#[trigger] self.as_set().contains(x)),
                Some(m) => self.as_set().contains(*m) && forall|x: T|
                    #[trigger] self.as_set().contains(x) ==> m.le(x),
            },
        decreases self,
    {
        match &self.left {
            None => {
                match &self.value {
                    None => None,
                    Some(key) => {
                        proof {
                            assert forall|x: T| #[trigger] self.as_set().contains(
                                x,
                            ) implies key.le(x) by {
                                if x == *key {
                                    T::lemma_reflexive(*key);
                                } else {
                                    assert(Self::opt_set(self.left).contains(x)
                                        || Self::opt_set(self.right).contains(x));
                                }
                            }
                        }
                        Some(key)
                    },
                }
            },
            Some(node) => {
                let r = node.minimum();
                proof {
                    let root = self.value->Some_0;
                    assert(node.as_set().contains(node.value->Some_0));
                    let m = r->Some_0;
                    assert forall|x: T| #[trigger] self.as_set().contains(x) implies (*m).le(
                        x,
                    ) by {
                        if x == root {
                            assert(Self::opt_set(self.left).contains(*m));
                        } else if Self::opt_set(self.right).contains(x) {
                            assert(Self::opt_set(self.left).contains(*m));
                            T::lemma_transitive(*m, root, x);
                        }
                    }
                }
                r
            },
        }
    }

    /// The greatest value held by the tree that is at or below `value`, or
    /// absent when every held value lies above it.
    pub fn floor(&self, value: T) -> (r: Option<&T>)
        requires
            self.well_formed(),
        ensures
            match r {
                None => forall|x: T| #[trigger] self.as_set().contains(x) ==> !x.le(value),
                Some(f) => self.as_set().contains(*f) && (*f).le(value) && (forall|x: T|
                    #[trigger] self.as_set().contains(x) && x.le(value) ==> x.le(*f)),
            },
        decreases self,
    {
        match &self.value {
            None => None,
            Some(val) => {
                match val.rank(&value) {
                    Rank::Same => {
                        proof {
                            T::lemma_reflexive(*val);
                        }
                        Some(val)
                    },
                    Rank::Higher => {
                        // the node and everything to its right lie above
                        // `value`: only the left subtree can hold the floor
                        proof {
                            if (*val).le(value) {
                                T::lemma_antisymmetric(*val, value);
                            }
                            assert forall|x: T|
                                #[trigger] Self::opt_set(self.right).contains(x) implies !x.le(
                                value,
                            ) by {
                                if x.le(value) {
                                    T::lemma_transitive(*val, x, value);
                                    T::lemma_antisymmetric(*val, value);
                                }
                            }
                        }
                        match &self.left {
                            None => {
                                proof {
                                    assert forall|x: T|
                                        #[trigger] self.as_set().contains(x) implies !x.le(
                                        value,
                                    ) by {
                                        if x.le(value) {
                                            assert(x != *val);
                                            assert(!Self::opt_set(self.right).contains(x));
                                            assert(Self::opt_set(self.left).contains(x));
                                        }
                                    }
                                }
                                None
                            },
                            Some(key) => {
                                let result = key.floor(value);
                                proof {
                                    assert(Self::opt_set(self.left) == key.as_set());
                                    if result is Some {
                                        let f = *result->Some_0;
                                        assert(key.as_set().contains(f));
                                        assert(self.as_set().contains(f));
                                        assert forall|x: T|
                                            #[trigger] self.as_set().contains(x) && x.le(
                                            value,
                                        ) implies x.le(f) by {
                                            assert(x != *val);
                                            assert(!Self::opt_set(self.right).contains(x));
                                            assert(key.as_set().contains(x));
                                        }
                                    } else {
                                        assert forall|x: T|
                                            #[trigger] self.as_set().contains(x) implies !x.le(
                                            value,
                                        ) by {
                                            if x.le(value) {
                                                assert(x != *val);
                                                assert(!Self::opt_set(self.right).contains(x));
                                                assert(key.as_set().contains(x));
                                            }
                                        }
                                    }
                                }
                                result
                            },
                        }
                    },
                    Rank::Lower => {
                        // the node itself qualifies; anything better sits in
                        // the right subtree
                        match &self.right {
                            None => {
                                proof {
                                    assert forall|x: T|
                                        #[trigger] self.as_set().contains(x) && x.le(
                                        value,
                                    ) implies x.le(*val) by {
                                        if x == *val {
                                            T::lemma_reflexive(*val);
                                        } else {
                                            assert(!Self::opt_set(self.right).contains(x));
                                            assert(Self::opt_set(self.left).contains(x));
                                        }
                                    }
                                }
                                Some(val)
                            },
                            Some(node) => {
                                let result = node.floor(value);
                                proof {
                                    assert(Self::opt_set(self.right) == node.as_set());
                                }
                                match result {
                                    None => {
                                        proof {
                                            assert forall|x: T|
                                                #[trigger] self.as_set().contains(x) && x.le(
                                                value,
                                            ) implies x.le(*val) by {
                                                if x == *val {
                                                    T::lemma_reflexive(*val);
                                                } else if Self::opt_set(self.right).contains(
                                                    x,
                                                ) {
                                                    assert(node.as_set().contains(x));
                                                } else {
                                                    assert(Self::opt_set(self.left).contains(x));
                                                }
                                            }
                                        }
                                        Some(val)
                                    },
                                    Some(found) => {
                                        proof {
                                            assert(node.as_set().contains(*found));
                                            assert(self.as_set().contains(*found));
                                            assert forall|x: T|
                                                #[trigger] self.as_set().contains(x) && x.le(
                                                value,
                                            ) implies x.le(*found) by {
                                                if x == *val {
                                                    assert((*val).le(*found));
                                                } else if Self::opt_set(self.left).contains(x) {
                                                    assert((*val).le(*found));
                                                    T::lemma_transitive(x, *val, *found);
                                                } else {
                                                    assert(node.as_set().contains(x));
                                                }
                                            }
                                        }
                                        Some(found)
                                    },
                                }
                            },
                        }
                    },
                }
            },
        }
    }

    /// The least value held by the tree that is at or above `value`, or
    /// absent when every held value lies below it.
    pub fn ceiling(&self, value: T) -> (r: Option<&T>)
        requires
            self.well_formed(),
        ensures
            match r {
                None => forall|x: T| #[trigger] self.as_set().contains(x) ==> !value.le(x),
                Some(c) => self.as_set().contains(*c) && value.le(*c) && (forall|x: T|
                    #[trigger] self.as_set().contains(x) && value.le(x) ==> (*c).le(x)),
            },
        decreases self,
    {
        match &self.value {
            None => None,
            Some(key) => {
                match key.rank(&value) {
                    Rank::Same => {
                        proof {
                            T::lemma_reflexive(*key);
                        }
                        Some(key)
                    },
                    Rank::Higher => {
                        // the node qualifies; anything better sits in the
                        // left subtree
                        match &self.left {
                            None => {
                                proof {
                                    assert forall|x: T|
                                        #[trigger] self.as_set().contains(x) && value.le(
                                        x,
                                    ) implies (*key).le(x) by {
                                        if x == *key {
                                            T::lemma_reflexive(*key);
                                        } else {
                                            assert(!Self::opt_set(self.left).contains(x));
                                            assert(Self::opt_set(self.right).contains(x));
                                        }
                                    }
                                }
                                Some(key)
                            },
                            Some(node) => {
                                let result = node.ceiling(value);
                                proof {
                                    assert(Self::opt_set(self.left) == node.as_set());
                                }
                                match result {
                                    None => {
                                        proof {
                                            assert forall|x: T|
                                                #[trigger] self.as_set().contains(x) && value.le(
                                                x,
                                            ) implies (*key).le(x) by {
                                                if x == *key {
                                                    T::lemma_reflexive(*key);
                                                } else if Self::opt_set(self.left).contains(x) {
                                                    assert(node.as_set().contains(x));
                                                } else {
                                                    assert(Self::opt_set(self.right).contains(
                                                        x,
                                                    ));
                                                }
                                            }
                                        }
                                        Some(key)
                                    },
                                    Some(found) => {
                                        proof {
                                            assert(node.as_set().contains(*found));
                                            assert(self.as_set().contains(*found));
                                            assert forall|x: T|
                                                #[trigger] self.as_set().contains(x) && value.le(
                                                x,
                                            ) implies (*found).le(x) by {
                                                if x == *key {
                                                    assert((*found).le(*key));
                                                } else if Self::opt_set(self.right).contains(
                                                    x,
                                                ) {
                                                    assert((*found).le(*key));
                                                    T::lemma_transitive(*found, *key, x);
                                                } else {
                                                    assert(node.as_set().contains(x));
                                                }
                                            }
                                        }
                                        Some(found)
                                    },
                                }
                            },
                        }
                    },
                    Rank::Lower => {
                        // the node and everything to its left lie below
                        // `value`: only the right subtree can hold the
                        // ceiling
                        proof {
                            if value.le(*key) {
                                T::lemma_antisymmetric(*key, value);
                            }
                            assert forall|x: T|
                                #[trigger] Self::opt_set(self.left).contains(x) implies !value.le(
                                x,
                            ) by {
                                if value.le(x) {
                                    T::lemma_transitive(value, x, *key);
                                    T::lemma_antisymmetric(*key, value);
                                }
                            }
                        }
                        match &self.right {
                            None => {
                                proof {
                                    assert forall|x: T|
                                        #[trigger] self.as_set().contains(x) implies !value.le(
                                        x,
                                    ) by {
                                        if value.le(x) {
                                            assert(x != *key);
                                            assert(!Self::opt_set(self.left).contains(x));
                                            assert(Self::opt_set(self.right).contains(x));
                                        }
                                    }
                                }
                                None
                            },
                            Some(val) => {
                                let result = val.ceiling(value);
                                proof {
                                    assert(Self::opt_set(self.right) == val.as_set());
                                    if result is Some {
                                        let c = *result->Some_0;
                                        assert(val.as_set().contains(c));
                                        assert(self.as_set().contains(c));
                                        assert forall|x: T|
                                            #[trigger] self.as_set().contains(x) && value.le(
                                            x,
                                        ) implies c.le(x) by {
                                            assert(x != *key);
                                            assert(!Self::opt_set(self.left).contains(x));
                                            assert(val.as_set().contains(x));
                                        }
                                    } else {
                                        assert forall|x: T|
                                            #[trigger] self.as_set().contains(x) implies !value.le(
                                            x,
                                        ) by {
                                            if value.le(x) {
                                                assert(x != *key);
                                                assert(!Self::opt_set(self.left).contains(x));
                                                assert(val.as_set().contains(x));
                                            }
                                        }
                                    }
                                }
                                result
                            },
                        }
                    },
                }
            },
        }
    }

    /// The greatest value held by the tree, reached by walking right.
    pub fn maximum(&self) -> (r: Option<&T>)
        requires
            self.well_formed(),
        ensures
            match r {
                None => forall|x: T| !(#[trigger] self.as_set().contains(x)),
                Some(m) => self.as_set().contains(*m) && forall|x: T|
                    #[trigger] self.as_set().contains(x) ==> x.le(*m),
            },
        decreases self,
    {
        match &self.right {
            None => {
                match &self.value {
                    None => None,
                    Some(key) => {
                        proof {
                            assert forall|x: T| #[trigger] self.as_set().contains(x) implies x.le(
                                *key,
                            ) by {
                                if x == *key {
                                    T::lemma_reflexive(*key);
                                } else {
                                    assert(Self::opt_set(self.left).contains(x)
                                        || Self::opt_set(self.right).contains(x));
                                }
                            }
                        }
                        Some(key)
                    },
                }
            },
            Some(node) => {
                let r = node.maximum();
                proof {
                    let root = self.value->Some_0;
                    assert(node.as_set().contains(node.value->Some_0));
                    let m = r->Some_0;
                    assert forall|x: T| #[trigger] self.as_set().contains(x) implies x.le(
                        *m,
                    ) by {
                        if x == root {
                            assert(Self::opt_set(self.right).contains(*m));
                        } else if Self::opt_set(self.left).contains(x) {
                            assert(Self::opt_set(self.right).contains(*m));
                            T::lemma_transitive(x, root, *m);
                        }
                    }
                }
                r
            },
        }
    }
    /// The in-order sequence of an optional subtree.
    pub closed spec fn opt_in_order(t: Option<Box<BinarySearchTree<T>>>) -> Seq<T>
        decreases t,
    {
        match t {
            None => Seq::empty(),
            Some(b) => b.in_order(),
        }
    }

    /// The values of the tree in in-order: left subtree, node, right
    /// subtree.
    pub closed spec fn in_order(self) -> Seq<T>
        decreases self,
    {
        match self.value {
            None => Seq::empty(),
            Some(v) => Self::opt_in_order(self.left) + seq![v] + Self::opt_in_order(self.right),
        }
    }

    /// What one stack entry still owes the traversal: its own value and its
    /// right subtree. Its left subtree is owed by the entries pushed above
    /// it, so it is not counted here.
    pub closed spec fn entry_rem(t: BinarySearchTree<T>) -> Seq<T> {
        (match t.value {
            None => Seq::<T>::empty(),
            Some(v) => seq![v],
        }) + Self::opt_in_order(t.right)
    }

    /// The values a whole stack still owes the traversal, topmost entry
    /// first.
    pub closed spec fn remaining(stack: Seq<&BinarySearchTree<T>>) -> Seq<T>
        decreases stack.len(),
    {
        if stack.len() == 0 {
            Seq::empty()
        } else {
            Self::entry_rem(*stack.last()) + Self::remaining(stack.drop_last())
        }
    }

    /// An in-order iterator positioned at the least value.
    pub fn iter<'a>(&'a self) -> (it: BinarySearchTreeIterator<'a, T>)
        requires
            self.well_formed(),
        ensures
            it.wf(),
            it@ == self.in_order(),
    {
        BinarySearchTreeIterator::new(self)
    }
}

/// Inserting one value into the left part of a stitched-together sequence
/// inserts it into the whole, counted with multiplicity.
proof fn lemma_concat_multiset_insert_left<A>(aold: Seq<A>, anew: Seq<A>, b: Seq<A>, x: A)
    requires
        anew.to_multiset() == aold.to_multiset().insert(x),
    ensures
        (anew + b).to_multiset() == (aold + b).to_multiset().insert(x),
{
    broadcast use vstd::multiset::group_multiset_axioms;

    vstd::seq_lib::lemma_multiset_commutative(anew, b);
    vstd::seq_lib::lemma_multiset_commutative(aold, b);
    assert((anew + b).to_multiset() =~= (aold + b).to_multiset().insert(x));
}

/// Inserting one value into the right part of a stitched-together sequence
/// inserts it into the whole, counted with multiplicity.
proof fn lemma_concat_multiset_insert_right<A>(a: Seq<A>, bold: Seq<A>, bnew: Seq<A>, x: A)
    requires
        bnew.to_multiset() == bold.to_multiset().insert(x),
    ensures
        (a + bnew).to_multiset() == (a + bold).to_multiset().insert(x),
{
    broadcast use vstd::multiset::group_multiset_axioms;

    vstd::seq_lib::lemma_multiset_commutative(a, bnew);
    vstd::seq_lib::lemma_multiset_commutative(a, bold);
    assert((a + bnew).to_multiset() =~= (a + bold).to_multiset().insert(x));
}

/// A value is among a stitched-together sequence exactly when it is in one
/// of the parts.
pub proof fn lemma_concat_contains<T>(a: Seq<T>, b: Seq<T>, x: T)
    ensures
        (a + b).contains(x) <==> a.contains(x) || b.contains(x),
{
    if (a + b).contains(x) {
        let i = choose|i: int| 0 <= i < (a + b).len() && (a + b)[i] == x;
        if i < a.len() {
            assert(a[i] == x);
        } else {
            assert(b[i - a.len()] == x);
        }
    }
    if a.contains(x) {
        let i = choose|i: int| 0 <= i < a.len() && a[i] == x;
        assert((a + b)[i] == x);
    }
    if b.contains(x) {
        let i = choose|i: int| 0 <= i < b.len() && b[i] == x;
        assert((a + b)[a.len() + i] == x);
    }
}

/// Law: in a well-formed tree the in-order traversal hands out exactly the
/// tree's values, in ascending order — the iterator enumerates the same set
/// that `search` answers for, least value first.
pub proof fn lemma_in_order_sorted<T: TotalOrder>(tree: BinarySearchTree<T>)
    requires
        tree.well_formed(),
    ensures
        forall|x: T| #[trigger] tree.in_order().contains(x) ==> tree.as_set().contains(x),
        forall|x: T| #[trigger] tree.as_set().contains(x) ==> tree.in_order().contains(x),
        forall|i: int, j: int|
            0 <= i < j < tree.in_order().len() ==> tree.in_order()[i].le(tree.in_order()[j]),
    decreases tree,
{
    let ord = tree.in_order();
    match tree.value {
        None => {
        },
        Some(v) => {
            let lseq = BinarySearchTree::opt_in_order(tree.left);
            let rseq = BinarySearchTree::opt_in_order(tree.right);
            let lset = BinarySearchTree::opt_set(tree.left);
            let rset = BinarySearchTree::opt_set(tree.right);
            if tree.left is Some {
                let l = tree.left->Some_0;
                lemma_in_order_sorted(*l);
                assert(lseq == l.in_order());
            }
            if tree.right is Some {
                let r = tree.right->Some_0;
                lemma_in_order_sorted(*r);
                assert(rseq == r.in_order());
            }
            assert(ord == (lseq + seq![v]) + rseq);
            assert forall|x: T| #[trigger] ord.contains(x) implies tree.as_set().contains(
                x,
            ) by {
                lemma_concat_contains(lseq + seq![v], rseq, x);
                lemma_concat_contains(lseq, seq![v], x);
                if seq![v].contains(x) {
                    assert(x == v);
                }
            }
            assert forall|x: T| #[trigger] tree.as_set().contains(x) implies ord.contains(
                x,
            ) by {
                if x == v {
                    assert(seq![v][0] == x);
                    assert(seq![v].contains(x));
                } else if lset.contains(x) {
                    assert(tree.left is Some);
                    assert(tree.left->Some_0.as_set().contains(x));
                    assert(tree.left->Some_0.in_order().contains(x));
                    assert(lseq.contains(x));
                } else {
                    assert(rset.contains(x));
                    assert(tree.right is Some);
                    assert(tree.right->Some_0.as_set().contains(x));
                    assert(tree.right->Some_0.in_order().contains(x));
                    assert(rseq.contains(x));
                }
                lemma_concat_contains(lseq, seq![v], x);
                lemma_concat_contains(lseq + seq![v], rseq, x);
            }
            let ll = lseq.len();
            assert forall|i: int, j: int| 0 <= i < j < ord.len() implies ord[i].le(ord[j]) by {
                if i < ll {
                    assert(ord[i] == lseq[i]);
                    assert(lseq.contains(lseq[i]));
                    assert(lset.contains(lseq[i]));
                }
                if j < ll {
                    assert(ord[j] == lseq[j]);
                }
                if i == ll {
                    assert(ord[i] == v);
                }
                if j == ll {
                    assert(ord[j] == v);
                }
                if i > ll {
                    assert(ord[i] == rseq[i - ll - 1]);
                }
                if j > ll {
                    assert(ord[j] == rseq[j - ll - 1]);
                    assert(rseq.contains(rseq[j - ll - 1]));
                    assert(rset.contains(rseq[j - ll - 1]));
                }
                if i < ll && j > ll {
                    T::lemma_transitive(ord[i], v, ord[j]);
                }
            }
        },
    }
}

impl<T: TotalOrder> Default for BinarySearchTree<T> {
    /// An empty tree, exactly as `new` builds it.
    fn default() -> (tree: Self)
        ensures
            tree.well_formed(),
            tree.as_set() == Set::<T>::empty(),
    {
        Self::new()
    }
}

/// An in-order traversal of a binary search tree, holding the path still to
/// be visited on an explicit stack.
pub struct BinarySearchTreeIterator<'a, T: TotalOrder> {
    stack: Vec<&'a BinarySearchTree<T>>,
}

impl<'a, T: TotalOrder> View for BinarySearchTreeIterator<'a, T> {
    type V = Seq<T>;

    /// The values the traversal has not yet handed out, in order.
    closed spec fn view(&self) -> Seq<T> {
        BinarySearchTree::remaining(self.stack@)
    }
}

impl<'a, T: TotalOrder> BinarySearchTreeIterator<'a, T> {
    /// Every stacked subtree is well formed, and an empty subtree can only
    /// be the root of an empty tree, stacked alone.
    pub closed spec fn wf(self) -> bool {
        &&& (forall|i: int|
            0 <= i < self.stack@.len() ==> (#[trigger] self.stack@[i]).well_formed())
        &&& (forall|i: int|
            0 <= i < self.stack@.len() ==> ((#[trigger] self.stack@[i]).value is None
                ==> self.stack@.len() == 1))
    }

    /// Start an in-order traversal of `tree`.
    pub fn new(tree: &'a BinarySearchTree<T>) -> (it: BinarySearchTreeIterator<'a, T>)
        requires
            tree.well_formed(),
        ensures
            it.wf(),
            it@ == tree.in_order(),
    {
        let mut iter = BinarySearchTreeIterator { stack: Vec::new() };
        iter.stack.push(tree);
        iter.push_to_stack();
        proof {
            assert(iter@ =~= tree.in_order());
        }
        iter
    }

    /// Descend along left children from the topmost entry, stacking each
    /// node passed, until the least unvisited value is on top.
    fn push_to_stack(&mut self)
        requires
            old(self).wf(),
            old(self).stack@.len() > 0,
        ensures
            final(self).wf(),
            final(self).stack@.len() > 0,
            final(self)@ == old(self).stack@.last().in_order() + BinarySearchTree::remaining(
                old(self).stack@.drop_last(),
            ),
    {
        while self.stack[self.stack.len() - 1].left.is_some()
            invariant
                self.wf(),
                self.stack@.len() > 0,
                self.stack@.last().in_order() + BinarySearchTree::remaining(
                    self.stack@.drop_last(),
                ) == old(self).stack@.last().in_order() + BinarySearchTree::remaining(
                    old(self).stack@.drop_last(),
                ),
            decreases *self.stack@.last(),
        {
            let top = self.stack[self.stack.len() - 1];
            match &top.left {
                Some(l) => {
                    let child: &'a BinarySearchTree<T> = &**l;
                    let ghost pre_stack = self.stack@;
                    self.stack.push(child);
                    proof {
                        assert(self.stack@.drop_last() =~= pre_stack);
                        assert(top.in_order() =~= child.in_order() + BinarySearchTree::entry_rem(
                            *top,
                        ));
                        assert(child.in_order() + BinarySearchTree::remaining(pre_stack)
                            =~= top.in_order() + BinarySearchTree::remaining(
                            pre_stack.drop_last(),
                        ));
                    }
                },
                None => {
                    proof {
                        assert(false);
                    }
                },
            }
        }
        proof {
            let top = *self.stack@.last();
            assert(top.in_order() =~= BinarySearchTree::entry_rem(top));
            assert(self@ =~= BinarySearchTree::entry_rem(top) + BinarySearchTree::remaining(
                self.stack@.drop_last(),
            ));
        }
    }

    /// Hand out the least unvisited value, or absence once the traversal is
    /// done.
    pub fn next(&mut self) -> (r: Option<&'a T>)
        requires
            old(self).wf(),
        ensures
            final(self).wf(),
            match r {
                None => old(self)@.len() == 0 && final(self)@ == old(self)@,
                Some(v) => old(self)@.len() > 0 && *v == old(self)@[0] && final(self)@ == old(
                    self,
                )@.drop_first(),
            },
    {
        if self.stack.is_empty() {
            proof {
                assert(old(self)@ =~= Seq::<T>::empty());
            }
            return None;
        } else {
            let ghost pre_stack = self.stack@;
            let node = self.stack.pop().unwrap();
            proof {
                assert(node == pre_stack.last());
                assert(self.stack@ =~= pre_stack.drop_last());
            }
            match &node.right {
                Some(key) => {
                    let child: &'a BinarySearchTree<T> = &**key;
                    let ghost rest = self.stack@;
                    self.stack.push(child);
                    proof {
                        assert(self.stack@.last() == child);
                        assert(self.stack@.drop_last() =~= rest);
                    }
                    self.push_to_stack();
                    proof {
                        assert(BinarySearchTree::opt_in_order(node.right) == child.in_order());
                        assert(self@ == child.in_order() + BinarySearchTree::remaining(rest));
                    }
                },
                None => {},
            }
            proof {
                let rem = BinarySearchTree::remaining(pre_stack.drop_last());
                assert(BinarySearchTree::remaining(pre_stack) == BinarySearchTree::entry_rem(
                    *node,
                ) + rem);
                if node.value is Some {
                    assert(old(self)@[0] == node.value->Some_0);
                    assert(self@ =~= BinarySearchTree::opt_in_order(node.right) + rem);
                    assert(self@ =~= old(self)@.drop_first());
                } else {
                    assert(BinarySearchTree::entry_rem(*node) =~= Seq::<T>::empty());
                    assert(old(self)@ =~= rem);
                    assert(self@ =~= old(self)@);
                }
            }
            node.value.as_ref()
        }
    }
}

} // verus!
