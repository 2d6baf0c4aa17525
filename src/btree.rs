//! An ordered set of `u32` keys in a B-Tree of minimum degree 2: every node
//! but the root holds one to three keys, and keys are stored in internal
//! nodes as well as in leaves.
use crate::bplustree::{strictly_sorted, upper_bound};
use vstd::prelude::*;

verus! {

/// The least number of children of a node other than the root.
pub const MINIMUM_DEGREE: usize = 2;

/// The most keys a node may hold.
pub const MAX_DEGREE: usize = 2 * MINIMUM_DEGREE - 1;

/// One node of the tree: its keys in increasing order and, for an internal
/// node, one child more than keys. Child `i` holds the keys strictly between
/// keys `i - 1` and `i`.
pub struct Node {
    keys: Vec<u32>,
    children: Vec<Node>,
    is_leaf: bool,
}

impl Node {
    pub closed spec fn leaf(self) -> bool {
        self.is_leaf
    }

    pub closed spec fn key_count(self) -> nat {
        self.keys@.len()
    }

    /// The keys of this node, in order.
    pub closed spec fn key_seq(self) -> Seq<u32> {
        self.keys@
    }

    /// Child `i` of an internal node.
    pub closed spec fn child(self, i: int) -> Node {
        self.children@[i]
    }

    /// The children of an internal node, in order; empty for a leaf.
    pub closed spec fn child_seq(self) -> Seq<Node> {
        self.children@
    }

    /// Distance from this node down to its leaves.
    pub closed spec fn height(self) -> nat
        decreases self,
    {
        if self.is_leaf || self.children.len() == 0 {
            0
        } else {
            self.children@[0].height() + 1
        }
    }

    /// The key lists of the nodes `d` levels below this one, left to right.
    spec fn keys_at_depth(self, d: nat) -> Seq<Seq<u32>>
        decreases d, self.children.len() + 1,
    {
        if d == 0 {
            seq![self.keys@]
        } else {
            self.keys_at_depth_upto(d, self.children.len() as int)
        }
    }

    /// The key lists of the nodes `d` levels below this one that lie under
    /// its first `j` children, left to right.
    spec fn keys_at_depth_upto(self, d: nat, j: int) -> Seq<Seq<u32>>
        decreases d, j,
    {
        if d == 0 || j <= 0 || j > self.children.len() {
            Seq::empty()
        } else {
            self.keys_at_depth_upto(d, j - 1) + self.children@[j - 1].keys_at_depth((d - 1) as nat)
        }
    }

    /// The keys held in this subtree.
    pub closed spec fn view(self) -> Set<u32>
        decreases self,
    {
        self.keys@.to_set().union(
            Set::new(
                |x: u32|
                    exists|i: int|
                        #![trigger self.children@[i]]
                        0 <= i < self.children.len() && self.children@[i].view().contains(x),
            ),
        )
    }

    /// `x` lies strictly between the keys on either side of child `i`.
    pub closed spec fn between(self, i: int, x: u32) -> bool {
        &&& 0 < i ==> self.keys@[i - 1] < x
        &&& i < self.keys.len() ==> x < self.keys@[i]
    }

    /// Keys increase from left to right across the whole subtree.
    pub closed spec fn ordered(self) -> bool
        decreases self,
    {
        &&& strictly_sorted(self.keys@)
        &&& if self.is_leaf {
            self.children.len() == 0
        } else {
            &&& self.children.len() == self.keys.len() + 1
            &&& forall|i: int|
                #![trigger self.children@[i]]
                0 <= i < self.children.len() ==> self.children@[i].ordered()
            &&& forall|i: int, x: u32|
                0 <= i < self.children.len() && #[trigger] self.children@[i]@.contains(x)
                    ==> self.between(i, x)
        }
    }

    /// Every leaf below this node lies at the same depth, and every node
    /// below it holds one to three keys.
    pub closed spec fn balanced(self) -> bool
        decreases self,
    {
        !self.is_leaf ==> forall|i: int|
            #![trigger self.children@[i]]
            0 <= i < self.children.len() ==> {
                &&& self.children@[i].balanced()
                &&& self.children@[i].height() + 1 == self.height()
                &&& 1 <= self.children@[i].keys.len() <= 3
            }
    }

    /// Child `i` is balanced, one level below this node, and holds one to
    /// three keys.
    pub closed spec fn child_fits(self, i: int) -> bool {
        &&& self.children@[i].balanced()
        &&& self.children@[i].height() + 1 == self.height()
        &&& 1 <= self.children@[i].keys.len() <= 3
    }

    proof fn lemma_fits_balanced(self)
        requires
            !self.is_leaf,
            forall|j: int| 0 <= j < self.children.len() ==> #[trigger] self.child_fits(j),
        ensures
            self.balanced(),
    {
        assert forall|j: int| 0 <= j < self.children.len() implies {
            &&& self.children@[j].balanced()
            &&& self.children@[j].height() + 1 == self.height()
            &&& 1 <= self.children@[j].keys.len() <= 3
        } by {
            assert(self.child_fits(j));
        }
    }

    proof fn lemma_child_decreases(self, i: int)
        requires
            0 <= i < self.children.len(),
        ensures
            decreases_to!(self => self.children@[i]),
    {
        assert(decreases_to!(self => self.children));
        assert(decreases_to!(self.children => self.children@));
        assert(decreases_to!(self.children@ => self.children@[i]));
    }

    proof fn lemma_leaf_iff_height(self)
        requires
            self.ordered(),
        ensures
            self.is_leaf <==> self.height() == 0,
    {
    }

    proof fn lemma_leaf_view(self)
        requires
            self.is_leaf,
            self.children.len() == 0,
        ensures
            self@ == self.keys@.to_set(),
    {
        assert(self@ =~= self.keys@.to_set());
    }

    /// In an ordered internal node a key strictly inside the range of child
    /// `i` is held below the node exactly when that child holds it.
    proof fn lemma_route(self, i: int, x: u32)
        requires
            self.ordered(),
            !self.is_leaf,
            0 <= i < self.children.len(),
            self.between(i, x),
        ensures
            self@.contains(x) <==> self.children@[i]@.contains(x),
    {
        if self.keys@.contains(x) {
            let j = choose|j: int| 0 <= j < self.keys.len() && self.keys@[j] == x;
            if j < i {
                assert(self.keys@[j] <= self.keys@[i - 1]);
            } else {
                assert(self.keys@[i] <= self.keys@[j]);
            }
        }
        if self@.contains(x) && !self.keys@.contains(x) {
            let j = choose|j: int|
                #![trigger self.children@[j]]
                0 <= j < self.children.len() && self.children@[j]@.contains(x);
            assert(self.between(j, x));
            if j < i {
                assert(self.keys@[j] <= self.keys@[i - 1]);
            }
            if j > i {
                assert(self.keys@[i] <= self.keys@[j - 1]);
            }
        }
    }

    /// Splits this full node (three keys) around its middle key: this node
    /// keeps the first key, the returned node takes the last, and the middle
    /// key is returned to go up.
    fn split_full(&mut self) -> (res: (u32, Node))
        requires
            old(self).ordered(),
            old(self).balanced(),
            old(self).keys.len() == 3,
        ensures
            ({
                let (mid, right) = res;
                &&& final(self).is_leaf == old(self).is_leaf
                &&& right.is_leaf == old(self).is_leaf
                &&& final(self).ordered()
                &&& right.ordered()
                &&& final(self).balanced()
                &&& right.balanced()
                &&& final(self).height() == old(self).height()
                &&& right.height() == old(self).height()
                &&& final(self).keys.len() == 1
                &&& right.keys.len() == 1
                &&& final(self)@.union(right@).insert(mid) == old(self)@
                &&& forall|x: u32| final(self)@.contains(x) ==> x < mid
                &&& forall|x: u32| right@.contains(x) ==> mid < x
                &&& mid == old(self).keys@[1]
                &&& final(self).keys@ == old(self).keys@.subrange(0, 1)
                &&& right.keys@ == old(self).keys@.subrange(2, 3)
                &&& final(self).children@ == if old(self).is_leaf {
                    old(self).children@
                } else {
                    old(self).children@.subrange(0, 2)
                }
                &&& right.children@ == if old(self).is_leaf {
                    Seq::empty()
                } else {
                    old(self).children@.subrange(2, 4)
                }
            }),
    {
        let ghost o = *self;
        let ghost k = o.keys@;
        let ghost c = o.children@;
        let mut right_keys = self.keys.split_off(1);
        let mid = right_keys.remove(0);
        let right_children = if self.is_leaf {
            Vec::new()
        } else {
            self.children.split_off(2)
        };
        let right = Node { keys: right_keys, children: right_children, is_leaf: self.is_leaf };
        proof {
            let l = *self;
            assert(l.keys@ == seq![k[0]]);
            assert(right.keys@ == seq![k[2]]);
            assert(mid == k[1]);
            assert(l.keys@[0] == k[0]);
            assert(l.keys@.contains(k[0]));
            assert(right.keys@[0] == k[2]);
            assert(right.keys@.contains(k[2]));
            assert forall|x: u32| #[trigger] l.keys@.contains(x) implies x == k[0] by {}
            assert forall|x: u32| #[trigger] right.keys@.contains(x) implies x == k[2] by {}
            if o.is_leaf {
                o.lemma_leaf_view();
                l.lemma_leaf_view();
                right.lemma_leaf_view();
                assert forall|x: u32| #[trigger] o@.contains(x) <==> (x == k[0] || x == k[1] || x == k[2]) by {
                    if k.contains(x) {
                        let j = choose|j: int| 0 <= j < k.len() && k[j] == x;
                    }
                    if x == k[0] || x == k[1] || x == k[2] {
                        assert(k.contains(x));
                    }
                }
                assert(l@.union(right@).insert(mid) =~= o@);
            } else {
                assert(c.len() == 4);
                assert(l.children@ == seq![c[0], c[1]]);
                assert(right.children@ == seq![c[2], c[3]]);
                assert(c[0].height() + 1 == o.height());
                assert(l.ordered()) by {
                    assert forall|j: int, x: u32| 0 <= j < l.children.len() && #[trigger] l.children@[j]@.contains(x) implies l.between(j, x) by {
                        assert(o.between(j, x));
                    }
                }
                assert(right.ordered()) by {
                    assert forall|j: int| 0 <= j < right.children.len() implies #[trigger] right.children@[j].ordered() by {
                        assert(c[j + 2].ordered());
                    }
                    assert forall|j: int, x: u32| 0 <= j < right.children.len() && #[trigger] right.children@[j]@.contains(x) implies right.between(j, x) by {
                        assert(right.children@[j] == c[j + 2]);
                        assert(o.between(j + 2, x));
                    }
                }
                assert(l.balanced()) by {
                    assert forall|j: int| 0 <= j < l.children.len() implies #[trigger] l.child_fits(j) by {
                        assert(o.child_fits(j));
                    }
                    l.lemma_fits_balanced();
                }
                assert(right.balanced()) by {
                    assert(c[2].height() + 1 == o.height());
                    assert forall|j: int| 0 <= j < right.children.len() implies #[trigger] right.child_fits(j) by {
                        assert(right.children@[j] == c[j + 2]);
                        assert(o.child_fits(j + 2));
                    }
                    right.lemma_fits_balanced();
                }
                assert forall|x: u32| #[trigger] o@.contains(x) <==> l@.union(right@).insert(mid).contains(x) by {
                    if o@.contains(x) {
                        if k.contains(x) {
                            let j = choose|j: int| 0 <= j < k.len() && k[j] == x;
                            if j == 0 {
                                assert(l@.contains(x));
                            } else if j == 2 {
                                assert(right@.contains(x));
                            }
                        } else {
                            let j = choose|j: int| #![trigger c[j]] 0 <= j < c.len() && c[j]@.contains(x);
                            if j < 2 {
                                assert(l.children@[j]@.contains(x));
                            } else {
                                assert(right.children@[j - 2]@.contains(x));
                            }
                        }
                    }
                    if l@.contains(x) {
                        if l.keys@.contains(x) {
                            assert(k.contains(x));
                        } else {
                            let j = choose|j: int| #![trigger l.children@[j]] 0 <= j < l.children.len() && l.children@[j]@.contains(x);
                            assert(c[j]@.contains(x));
                        }
                    }
                    if right@.contains(x) {
                        if right.keys@.contains(x) {
                            assert(k.contains(x));
                        } else {
                            let j = choose|j: int| #![trigger right.children@[j]] 0 <= j < right.children.len() && right.children@[j]@.contains(x);
                            assert(c[j + 2]@.contains(x));
                        }
                    }
                    if x == mid {
                        assert(k.contains(x));
                    }
                }
                assert(l@.union(right@).insert(mid) =~= o@);
                assert forall|x: u32| l@.contains(x) implies x < mid by {
                    if !l.keys@.contains(x) {
                        let j = choose|j: int| #![trigger l.children@[j]] 0 <= j < l.children.len() && l.children@[j]@.contains(x);
                        assert(o.between(j, x));
                    }
                }
                assert forall|x: u32| right@.contains(x) implies mid < x by {
                    if !right.keys@.contains(x) {
                        let j = choose|j: int| #![trigger right.children@[j]] 0 <= j < right.children.len() && right.children@[j]@.contains(x);
                        assert(right.children@[j] == c[j + 2]);
                        assert(o.between(j + 2, x));
                    }
                }
            }
        }
        (mid, right)
    }

    /// Splits child `index`, which is full, in two around its middle key,
    /// which moves up into this node as key `index`. The stored keys do not
    /// change.
    pub fn split_child(&mut self, index: usize)
        requires
            old(self).ordered(),
            !old(self).leaf(),
            old(self).key_count() < MAX_DEGREE,
            index < old(self).key_count() + 1,
            old(self).child(index as int).balanced(),
            old(self).child(index as int).height() + 1 == old(self).height(),
            old(self).child(index as int).key_count() == MAX_DEGREE,
            forall|j: int|
                0 <= j <= old(self).key_count() && j != index ==> #[trigger] old(self).child_fits(j),
        ensures
            final(self).ordered(),
            final(self).balanced(),
            !final(self).leaf(),
            final(self).height() == old(self).height(),
            final(self).key_seq() == old(self).key_seq().insert(
                index as int,
                final(self).key_seq()[index as int],
            ),
            final(self).child(index as int).key_count() == 1,
            final(self).child(index + 1).key_count() == 1,
            final(self)@ == old(self)@,
            ({
                let c = old(self).child(index as int);
                let l = final(self).child(index as int);
                let r = final(self).child(index + 1);
                &&& final(self).key_seq() == old(self).key_seq().insert(index as int, c.key_seq()[1])
                &&& final(self).child_seq().len() == old(self).child_seq().len() + 1
                &&& forall|j: int| 0 <= j < index ==> #[trigger] final(self).child(j) == old(self).child(j)
                &&& forall|j: int|
                    index < j < old(self).child_seq().len() ==> #[trigger] final(self).child(j + 1)
                        == old(self).child(j)
                &&& l.leaf() == c.leaf()
                &&& r.leaf() == c.leaf()
                &&& l.key_seq() == c.key_seq().subrange(0, 1)
                &&& r.key_seq() == c.key_seq().subrange(2, 3)
                &&& !c.leaf() ==> l.child_seq() == c.child_seq().subrange(0, 2) && r.child_seq()
                    == c.child_seq().subrange(2, 4)
            }),
    {
        let ghost o = *self;
        let ghost k = o.keys@;
        let ghost c = o.children@;
        let ghost i = index as int;
        let mut child = self.children.remove(index);
        let (mid, right) = child.split_full();
        self.keys.insert(index, mid);
        self.children.insert(index, child);
        self.children.insert(index + 1, right);
        proof {
            let n = *self;
            let l = child;
            let oc = c[i];
            assert forall|j: int| 0 <= j < i implies #[trigger] n.children@[j] == c[j] by {}
            assert forall|j: int| i + 1 < j < n.children.len() implies #[trigger] n.children@[j] == c[j - 1] by {}
            assert forall|j: int| 0 <= j < i implies #[trigger] n.keys@[j] == k[j] by {}
            assert forall|j: int| i < j < n.keys.len() implies #[trigger] n.keys@[j] == k[j - 1] by {}
            assert(n.children@[i] == l);
            assert(n.children@[i + 1] == right);
            assert(n.keys@[i] == mid);
            assert(oc@.contains(mid));
            assert(o.between(i, mid));
            assert(strictly_sorted(n.keys@)) by {
                assert forall|a: int, b: int| 0 <= a < b < n.keys.len() implies n.keys@[a] < n.keys@[b] by {
                    if a < i && b == i {
                        assert(k[a] <= k[i - 1]);
                    } else if a == i && b > i {
                        assert(k[i] <= k[b - 1]);
                    }
                }
            }
            assert forall|j: int| 0 <= j < n.children.len() implies #[trigger] n.children@[j].ordered() by {
                if j > i + 1 {
                    assert(c[j - 1].ordered());
                } else if j < i {
                    assert(c[j].ordered());
                }
            }
            assert forall|j: int, x: u32| 0 <= j < n.children.len() && #[trigger] n.children@[j]@.contains(x) implies n.between(j, x) by {
                if j < i {
                    assert(o.between(j, x));
                } else if j == i || j == i + 1 {
                    assert(oc@.contains(x));
                    assert(o.between(i, x));
                } else {
                    assert(o.between(j - 1, x));
                }
            }
            assert forall|x: u32| #[trigger] n@.contains(x) <==> o@.contains(x) by {
                if n@.contains(x) {
                    if n.keys@.contains(x) {
                        let j = choose|j: int| 0 <= j < n.keys.len() && n.keys@[j] == x;
                        if j < i {
                            assert(k.contains(x));
                        } else if j > i {
                            assert(k[j - 1] == x);
                            assert(k.contains(x));
                        } else {
                            assert(c[i]@.contains(x));
                        }
                    } else {
                        let j = choose|j: int| #![trigger n.children@[j]] 0 <= j < n.children.len() && n.children@[j]@.contains(x);
                        if j > i + 1 {
                            assert(c[j - 1]@.contains(x));
                        } else if j >= i {
                            assert(c[i]@.contains(x));
                        } else {
                            assert(c[j]@.contains(x));
                        }
                    }
                }
                if o@.contains(x) {
                    if k.contains(x) {
                        let j = choose|j: int| 0 <= j < k.len() && k[j] == x;
                        if j >= i {
                            assert(n.keys@[j + 1] == x);
                        } else {
                            assert(n.keys@[j] == x);
                        }
                        assert(n.keys@.contains(x));
                    } else {
                        let j = choose|j: int| #![trigger c[j]] 0 <= j < c.len() && c[j]@.contains(x);
                        if j > i {
                            assert(n.children@[j + 1]@.contains(x));
                        } else if j == i {
                            if x == mid {
                                assert(n.keys@.contains(x));
                            } else if l@.contains(x) {
                                assert(n.children@[i]@.contains(x));
                            } else {
                                assert(n.children@[i + 1]@.contains(x));
                            }
                        } else {
                            assert(n.children@[j]@.contains(x));
                        }
                    }
                }
            }
            assert(n@ =~= o@);
            assert(n.keys@ =~= k.insert(i, mid));
            assert(c[i].ordered());
            assert(!oc.is_leaf ==> oc.children.len() == 4);
            assert forall|j: int| 0 <= j < index implies #[trigger] n.child(j) == o.child(j) by {}
            assert forall|j: int| index < j < c.len() implies #[trigger] n.child(j + 1) == o.child(j) by {}
            if i == 0 {
                assert(n.children@[0] == l);
            } else {
                assert(n.children@[0] == c[0]);
            }
            assert(n.height() == o.height());
            assert forall|j: int| 0 <= j < n.children.len() implies #[trigger] n.child_fits(j) by {
                if j > i + 1 {
                    assert(o.child_fits(j - 1));
                } else if j < i {
                    assert(o.child_fits(j));
                }
            }
            n.lemma_fits_balanced();
        }
    }

    /// Adds `key` below this node, which holds fewer than three keys, unless
    /// it is already there. A full child is split before the descent into
    /// it, so the child taken is never full.
    pub fn insert_non_full(&mut self, key: u32)
        requires
            old(self).ordered(),
            old(self).balanced(),
            old(self).key_count() < MAX_DEGREE,
        ensures
            final(self).ordered(),
            final(self).balanced(),
            final(self).leaf() == old(self).leaf(),
            final(self).height() == old(self).height(),
            final(self)@ == old(self)@.insert(key),
            old(self).key_count() <= final(self).key_count() <= old(self).key_count() + 1,
            old(self)@.contains(key) ==> *final(self) == *old(self),
    {
        if self.search(&key).is_some() {
            proof {
                assert(old(self)@.insert(key) =~= old(self)@);
            }
            return;
        }
        self.insert_absent(key);
    }

    /// Adds `key`, which is not held below this node, as `insert_non_full`
    /// describes.
    fn insert_absent(&mut self, key: u32)
        requires
            old(self).ordered(),
            old(self).balanced(),
            old(self).key_count() < MAX_DEGREE,
            !old(self)@.contains(key),
        ensures
            final(self).ordered(),
            final(self).balanced(),
            final(self).leaf() == old(self).leaf(),
            final(self).height() == old(self).height(),
            final(self)@ == old(self)@.insert(key),
            old(self).key_count() <= final(self).key_count() <= old(self).key_count() + 1,
        decreases old(self).height(),
    {
        let ghost o = *self;
        let i = upper_bound(&self.keys, key);
        if i > 0 && self.keys[i - 1] == key {
            proof {
                assert(o.keys@.contains(key));
                assert(o@.insert(key) =~= o@);
            }
            return;
        }
        proof {
            if i > 0 {
                assert(o.keys@[i - 1] < key);
            }
            assert(o.between(i as int, key));
        }
        if self.is_leaf {
            self.keys.insert(i, key);
            proof {
                let k = o.keys@;
                let n = *self;
                o.lemma_leaf_view();
                n.lemma_leaf_view();
                assert forall|j: int| 0 <= j < i implies k[j] < key by {
                    assert(k[j] <= k[i - 1]);
                }
                assert(strictly_sorted(n.keys@)) by {
                    assert forall|a: int, b: int| 0 <= a < b < n.keys.len() implies n.keys@[a] < n.keys@[b] by {
                        if b < i {
                            assert(n.keys@[a] == k[a] && n.keys@[b] == k[b]);
                        } else if a > i {
                            assert(n.keys@[a] == k[a - 1] && n.keys@[b] == k[b - 1]);
                        } else if a < i {
                            assert(n.keys@[a] == k[a]);
                            if b > i {
                                assert(n.keys@[b] == k[b - 1]);
                            }
                        } else {
                            assert(n.keys@[b] == k[b - 1]);
                        }
                    }
                }
                assert forall|x: u32| #[trigger] n.keys@.contains(x) <==> k.contains(x) || x == key by {
                    if n.keys@.contains(x) {
                        let j = choose|j: int| 0 <= j < n.keys.len() && n.keys@[j] == x;
                        if j < i {
                            assert(k[j] == x);
                        } else if j > i {
                            assert(k[j - 1] == x);
                        }
                    }
                    if k.contains(x) {
                        let j = choose|j: int| 0 <= j < k.len() && k[j] == x;
                        if j < i {
                            assert(n.keys@[j] == x);
                        } else {
                            assert(n.keys@[j + 1] == x);
                        }
                    }
                    if x == key {
                        assert(n.keys@[i as int] == x);
                    }
                }
                assert(n@ =~= o@.insert(key));
            }
        } else {
            let mut i = i;
            proof {
                assert forall|j: int| 0 <= j < o.children.len() implies #[trigger] o.child_fits(j) by {}
            }
            if self.children[i].keys.len() == MAX_DEGREE {
                self.split_child(i);
                let mid = self.keys[i];
                if mid == key {
                    proof {
                        assert((*self).keys@.contains(key));
                        assert(o@.insert(key) =~= o@);
                    }
                    return;
                }
                if mid < key {
                    i = i + 1;
                }
            }
            let ghost p = *self;
            proof {
                assert(p.between(i as int, key));
                assert(p.child_fits(i as int));
                p.lemma_route(i as int, key);
                assert(p@ == o@);
            }
            self.children[i].insert_absent(key);
            proof {
                let n = *self;
                let nc = n.children@[i as int];
                assert(n.children@ =~= p.children@.update(i as int, nc));
                assert forall|x: u32| nc@.contains(x) implies p.between(i as int, x) by {
                    if x != key {
                        assert(p.children@[i as int]@.contains(x));
                    }
                }
                lemma_replace_child(p, n, i as int);
                assert forall|x: u32| #[trigger] n@.contains(x) <==> p@.insert(key).contains(x) by {
                    if p.between(i as int, x) {
                        p.lemma_route(i as int, x);
                    }
                }
                assert(n@ =~= o@.insert(key));
                assert forall|j: int| 0 <= j < n.children.len() implies #[trigger] n.child_fits(j) by {
                    if j != i {
                        assert(n.children@[j] == p.children@[j]);
                        assert(p.child_fits(j));
                    }
                }
                if i == 0 {
                    assert(n.height() == p.height());
                } else {
                    assert(n.children@[0] == p.children@[0]);
                }
                n.lemma_fits_balanced();
            }
        }
    }

    /// Child `i` has no key left; every other child fits.
    spec fn underflow_at(self, i: int) -> bool {
        &&& !self.is_leaf
        &&& 0 <= i < self.children.len()
        &&& 2 <= self.children.len()
        &&& self.children@[i].balanced()
        &&& self.children@[i].height() + 1 == self.height()
        &&& self.children@[i].keys.len() == 0
        &&& forall|j: int| 0 <= j < self.children.len() && j != i ==> #[trigger] self.child_fits(j)
    }

    /// After a rotation or a merge around the empty child `i` of `o`, every
    /// child of this node fits: it is either an untouched child other than
    /// `i`, or a rebuilt one that fits on its own.
    proof fn lemma_rebuilt_balanced(self, o: Node, i: int)
        requires
            !self.is_leaf,
            o.underflow_at(i),
            1 <= self.children.len(),
            forall|a: int|
                #![trigger self.children@[a]]
                0 <= a < self.children.len() ==> (a != i && a < o.children.len()
                    && self.children@[a] == o.children@[a]) || {
                    &&& self.children@[a].balanced()
                    &&& self.children@[a].height() + 1 == o.height()
                    &&& 1 <= self.children@[a].keys.len() <= 3
                },
        ensures
            self.balanced(),
            self.height() == o.height(),
    {
        if self.children@[0] == o.children@[0] && 0 != i {
            assert(o.child_fits(0));
        }
        assert(self.height() == o.height());
        assert forall|a: int| 0 <= a < self.children.len() implies #[trigger] self.child_fits(a) by {
            if a != i && a < o.children.len() && self.children@[a] == o.children@[a] {
                assert(o.child_fits(a));
            }
        }
        self.lemma_fits_balanced();
    }

    /// Child `i` is empty and its left sibling has a key to spare: the
    /// separator moves down into the child and the sibling's last key moves
    /// up in its place, with the sibling's last child if there is one.
    fn rotate_from_left(&mut self, i: usize)
        requires
            old(self).ordered(),
            old(self).underflow_at(i as int),
            0 < i,
            old(self).children@[i - 1].keys.len() > 1,
        ensures
            final(self).ordered(),
            final(self).balanced(),
            !final(self).is_leaf,
            final(self).height() == old(self).height(),
            final(self).keys.len() == old(self).keys.len(),
            final(self)@ == old(self)@,
    {
        let ghost o = *self;
        let ghost ol = o.children@[i - 1];
        let ghost oc = o.children@[i as int];
        proof {
            assert(o.child_fits(i - 1));
            assert(ol.ordered());
            assert(oc.ordered());
            ol.lemma_leaf_iff_height();
            oc.lemma_leaf_iff_height();
        }
        let sep = self.keys[i - 1];
        let moved = self.children[i - 1].keys.pop().unwrap();
        let ghost g = if ol.is_leaf { oc } else { ol.children@.last() };
        if self.children[i].is_leaf {
            self.children[i].keys.insert(0, sep);
        } else {
            let grandchild = self.children[i - 1].children.pop().unwrap();
            self.children[i].keys.insert(0, sep);
            self.children[i].children.insert(0, grandchild);
        }
        self.keys.set(i - 1, moved);
        proof {
            let n = *self;
            let nl = n.children@[i - 1];
            let nc = n.children@[i as int];
            assert(nl.keys@ =~= ol.keys@.drop_last());
            if !ol.is_leaf {
                assert(nl.children@ =~= ol.children@.drop_last());
            }
            lemma_drop_last(ol, nl);
            assert(ol@.contains(moved));
            assert(o.between(i - 1, moved));
            assert forall|x: u32| oc@.contains(x) implies sep < x by {
                assert(o.between(i as int, x));
            }
            assert forall|x: u32| ol@.contains(x) implies x < sep by {
                assert(o.between(i - 1, x));
            }
            if !oc.is_leaf {
                assert forall|x: u32| g@.contains(x) implies x < sep by {
                    assert(last_child_view(ol).contains(x));
                    assert(ol@.contains(x));
                }
            }
            lemma_push_front(oc, nc, sep, g);
            assert forall|x: u32| #[trigger] nl@.contains(x) implies n.between(i - 1, x) by {
                assert(ol@.contains(x));
                assert(o.between(i - 1, x));
            }
            assert forall|x: u32| #[trigger] nc@.contains(x) implies n.between(i as int, x) by {
                if oc@.contains(x) {
                    assert(o.between(i as int, x));
                } else if i < o.keys.len() {
                    assert(o.keys@[i - 1] < o.keys@[i as int]);
                }
            }
            assert(strictly_sorted(n.keys@)) by {
                assert forall|a: int, b: int| 0 <= a < b < n.keys.len() implies n.keys@[a] < n.keys@[b] by {
                    if a == i - 1 {
                        assert(o.keys@[i - 1] <= o.keys@[b]);
                    } else if b == i - 1 {
                        assert(o.keys@[a] <= o.keys@[i - 2]);
                    }
                }
            }
            assert(nl@.union(nc@).insert(moved) =~= ol@.union(oc@).insert(sep));
            lemma_pair_replaced(o, n, i - 1);
            n.lemma_rebuilt_balanced(o, i as int);
        }
    }

    /// Child `i` is empty and its right sibling has a key to spare: the
    /// separator moves down into the child and the sibling's first key moves
    /// up in its place, with the sibling's first child if there is one.
    fn rotate_from_right(&mut self, i: usize)
        requires
            old(self).ordered(),
            old(self).underflow_at(i as int),
            i + 1 < old(self).children.len(),
            old(self).children@[i + 1].keys.len() > 1,
        ensures
            final(self).ordered(),
            final(self).balanced(),
            !final(self).is_leaf,
            final(self).height() == old(self).height(),
            final(self).keys.len() == old(self).keys.len(),
            final(self)@ == old(self)@,
    {
        let ghost o = *self;
        let ghost oc = o.children@[i as int];
        let ghost or = o.children@[i + 1];
        proof {
            assert(o.child_fits(i + 1));
            assert(or.ordered());
            assert(oc.ordered());
            or.lemma_leaf_iff_height();
            oc.lemma_leaf_iff_height();
        }
        let sep = self.keys[i];
        let moved = self.children[i + 1].keys.remove(0);
        let ghost g = if or.is_leaf { oc } else { or.children@[0] };
        if self.children[i].is_leaf {
            self.children[i].keys.push(sep);
        } else {
            let grandchild = self.children[i + 1].children.remove(0);
            self.children[i].keys.push(sep);
            self.children[i].children.push(grandchild);
        }
        self.keys.set(i, moved);
        proof {
            let n = *self;
            let nc = n.children@[i as int];
            let nr = n.children@[i + 1];
            assert(nr.keys@ =~= or.keys@.subrange(1, or.keys.len() as int));
            if !or.is_leaf {
                assert(nr.children@ =~= or.children@.subrange(1, or.children.len() as int));
            }
            lemma_drop_first(or, nr);
            assert(or@.contains(moved));
            assert(o.between(i + 1, moved));
            assert forall|x: u32| oc@.contains(x) implies x < sep by {
                assert(o.between(i as int, x));
            }
            assert forall|x: u32| or@.contains(x) implies sep < x by {
                assert(o.between(i + 1, x));
            }
            if !oc.is_leaf {
                assert forall|x: u32| g@.contains(x) implies sep < x by {
                    assert(first_child_view(or).contains(x));
                    assert(or@.contains(x));
                }
            }
            lemma_push_back(oc, nc, sep, g);
            assert forall|x: u32| #[trigger] nr@.contains(x) implies n.between(i + 1, x) by {
                assert(or@.contains(x));
                assert(o.between(i + 1, x));
            }
            assert forall|x: u32| #[trigger] nc@.contains(x) implies n.between(i as int, x) by {
                if oc@.contains(x) {
                    assert(o.between(i as int, x));
                } else if i > 0 {
                    assert(o.keys@[i - 1] < o.keys@[i as int]);
                }
            }
            assert(strictly_sorted(n.keys@)) by {
                assert forall|a: int, b: int| 0 <= a < b < n.keys.len() implies n.keys@[a] < n.keys@[b] by {
                    if a == i {
                        assert(n.keys@[b] == o.keys@[b]);
                    } else if b == i {
                        assert(o.keys@[a] <= o.keys@[i as int]);
                    }
                }
            }
            assert(nc@.union(nr@).insert(moved) =~= oc@.union(or@).insert(sep));
            lemma_pair_replaced(o, n, i as int);
            n.lemma_rebuilt_balanced(o, i as int);
        }
    }

    /// Children `j` and `j + 1`, one empty and the other holding one key,
    /// become one child that also takes the separator between them.
    fn merge_children(&mut self, j: usize, short: Ghost<int>)
        requires
            old(self).ordered(),
            old(self).underflow_at(short@),
            short@ == j || short@ == j + 1,
            j + 1 < old(self).children.len(),
            old(self).children@[j as int].keys.len() + old(self).children@[j + 1].keys.len() == 1,
        ensures
            final(self).ordered(),
            final(self).balanced(),
            !final(self).is_leaf,
            final(self).height() == old(self).height(),
            final(self).keys.len() + 1 == old(self).keys.len(),
            final(self)@ == old(self)@,
    {
        let ghost o = *self;
        let ghost ol = o.children@[j as int];
        let ghost or = o.children@[j + 1];
        proof {
            assert(ol.ordered());
            assert(or.ordered());
            if short@ == j {
                assert(o.child_fits(j + 1));
            } else {
                assert(o.child_fits(j as int));
            }
            ol.lemma_leaf_iff_height();
            or.lemma_leaf_iff_height();
            assert forall|x: u32| ol@.contains(x) implies x < o.keys@[j as int] by {
                assert(o.between(j as int, x));
            }
            assert forall|x: u32| or@.contains(x) implies o.keys@[j as int] < x by {
                assert(o.between(j + 1, x));
            }
        }
        let right = self.children.remove(j + 1);
        let sep = self.keys.remove(j);
        let Node { keys: mut right_keys, children: mut right_children, is_leaf: _ } = right;
        self.children[j].keys.push(sep);
        self.children[j].keys.append(&mut right_keys);
        self.children[j].children.append(&mut right_children);
        proof {
            let n = *self;
            let nm = n.children@[j as int];
            assert(nm.keys@ =~= ol.keys@.push(sep) + or.keys@);
            lemma_concat(ol, or, sep, nm);
            assert forall|a: int| 0 <= a < j implies #[trigger] n.children@[a] == o.children@[a] by {}
            assert forall|a: int| j < a < n.children.len() implies #[trigger] n.children@[a] == o.children@[a + 1] by {}
            assert forall|a: int| 0 <= a < j implies #[trigger] n.keys@[a] == o.keys@[a] by {}
            assert forall|a: int| j <= a < n.keys.len() implies #[trigger] n.keys@[a] == o.keys@[a + 1] by {}
            assert forall|x: u32| #[trigger] nm@.contains(x) implies n.between(j as int, x) by {
                if ol@.contains(x) {
                    assert(o.between(j as int, x));
                    if j < n.keys.len() {
                        assert(o.keys@[j as int] < o.keys@[j + 1]);
                    }
                } else if or@.contains(x) {
                    assert(o.between(j + 1, x));
                    if j > 0 {
                        assert(o.keys@[j - 1] < o.keys@[j as int]);
                    }
                } else {
                    if j < n.keys.len() {
                        assert(o.keys@[j as int] < o.keys@[j + 1]);
                    }
                    if j > 0 {
                        assert(o.keys@[j - 1] < o.keys@[j as int]);
                    }
                }
            }
            lemma_merged(o, n, j as int);
            if j > 0 {
                assert(o.child_fits(0));
            }
            assert(n.height() == o.height());
            assert forall|a: int| 0 <= a < n.children.len() implies #[trigger] n.child_fits(a) by {
                if a < j {
                    assert(o.child_fits(a));
                } else if a > j {
                    assert(o.child_fits(a + 1));
                }
            }
            n.lemma_fits_balanced();
        }
    }

    /// Refills the empty child `i`: from its left sibling if that one has a
    /// key to spare, else from its right sibling, else by a merge with a
    /// sibling.
    fn fix_underflow(&mut self, i: usize)
        requires
            old(self).ordered(),
            old(self).underflow_at(i as int),
        ensures
            final(self).ordered(),
            final(self).balanced(),
            !final(self).is_leaf,
            final(self).height() == old(self).height(),
            old(self).keys.len() <= final(self).keys.len() + 1,
            final(self).keys.len() <= old(self).keys.len(),
            final(self)@ == old(self)@,
    {
        if i > 0 && self.children[i - 1].keys.len() > 1 {
            self.rotate_from_left(i);
        } else if i + 1 < self.children.len() && self.children[i + 1].keys.len() > 1 {
            self.rotate_from_right(i);
        } else if i > 0 {
            proof {
                assert(self.child_fits(i - 1));
            }
            self.merge_children(i - 1, Ghost(i as int));
        } else {
            proof {
                assert(self.child_fits(i + 1));
            }
            self.merge_children(i, Ghost(i as int));
        }
    }

    /// Removes the largest key below this node, which holds at least one
    /// key, and returns it. A child left empty is refilled before returning.
    fn take_largest(&mut self) -> (r: u32)
        requires
            old(self).ordered(),
            old(self).balanced(),
            1 <= old(self).keys.len(),
        ensures
            final(self).ordered(),
            final(self).balanced(),
            final(self).is_leaf == old(self).is_leaf,
            final(self).height() == old(self).height(),
            old(self)@.contains(r),
            forall|x: u32| old(self)@.contains(x) ==> x <= r,
            final(self)@ == old(self)@.remove(r),
            old(self).keys.len() <= final(self).keys.len() + 1,
            final(self).keys.len() <= old(self).keys.len(),
        decreases old(self).height(),
    {
        let ghost o = *self;
        if self.is_leaf {
            let largest = self.keys.pop().unwrap();
            proof {
                let n = *self;
                lemma_drop_last(o, n);
                assert(n@.union(last_child_view(o)).insert(largest) == o@);
                assert(last_child_view(o) =~= Set::<u32>::empty());
                assert(n@.insert(largest) =~= o@);
                assert(!n@.contains(largest));
                assert(n@ =~= o@.remove(largest));
            }
            largest
        } else {
            let last = self.children.len() - 1;
            proof {
                assert(o.child_fits(last as int));
                assert(o.children@[last as int].ordered());
            }
            let largest = self.children[last].take_largest();
            proof {
                let n = *self;
                let oc = o.children@[last as int];
                let nc = n.children@[last as int];
                let k = o.keys@;
                assert(n.children@ =~= o.children@.update(last as int, nc));
                assert forall|x: u32| nc@.contains(x) implies o.between(last as int, x) by {
                    assert(oc@.contains(x));
                }
                lemma_replace_child(o, n, last as int);
                assert(o.between(last as int, largest));
                o.lemma_route(last as int, largest);
                assert forall|x: u32| #[trigger] n@.contains(x) <==> o@.remove(largest).contains(x) by {
                    if o.between(last as int, x) {
                        o.lemma_route(last as int, x);
                    }
                }
                assert(n@ =~= o@.remove(largest));
                assert forall|x: u32| o@.contains(x) implies x <= largest by {
                    if k.contains(x) {
                        let a = choose|a: int| 0 <= a < k.len() && k[a] == x;
                        assert(k[a] <= k[last - 1]);
                    } else {
                        let a = choose|a: int| #![trigger o.children@[a]] 0 <= a < o.children.len() && o.children@[a]@.contains(x);
                        assert(o.between(a, x));
                        if a < last {
                            assert(k[a] <= k[last - 1]);
                        }
                    }
                }
                assert forall|j: int| 0 <= j < n.children.len() && j != last implies #[trigger] n.child_fits(j) by {
                    assert(n.children@[j] == o.children@[j]);
                    assert(o.child_fits(j));
                }
                if last == 0 {
                    assert(n.height() == o.height());
                } else {
                    assert(n.children@[0] == o.children@[0]);
                }
            }
            if self.children[last].keys.len() == 0 {
                self.fix_underflow(last);
            } else {
                proof {
                    assert((*self).child_fits(last as int));
                    (*self).lemma_fits_balanced();
                }
            }
            largest
        }
    }

    /// Removes `key` from below this node and returns it, or returns `None`
    /// when it is not held. A key of an internal node is replaced by the
    /// largest key on its left; a child left empty is refilled before
    /// returning, and this node itself may end empty.
    pub fn remove(&mut self, key: &u32) -> (r: Option<u32>)
        requires
            old(self).ordered(),
            old(self).balanced(),
            !old(self).leaf() ==> 1 <= old(self).key_count(),
        ensures
            final(self).ordered(),
            final(self).balanced(),
            final(self).leaf() == old(self).leaf(),
            final(self).height() == old(self).height(),
            final(self)@ == old(self)@.remove(*key),
            r == if old(self)@.contains(*key) {
                Some(*key)
            } else {
                None::<u32>
            },
            old(self).key_count() <= final(self).key_count() + 1,
            final(self).key_count() <= old(self).key_count(),
        decreases old(self).height(),
    {
        let ghost o = *self;
        let i = upper_bound(&self.keys, *key);
        if i > 0 && self.keys[i - 1] == *key {
            let j = i - 1;
            if self.is_leaf {
                self.keys.remove(j);
                proof {
                    let k = o.keys@;
                    let n = *self;
                    o.lemma_leaf_view();
                    n.lemma_leaf_view();
                    assert forall|a: int| 0 <= a < n.keys.len() implies #[trigger] n.keys@[a] == if a < j { k[a] } else { k[a + 1] } by {}
                    assert(strictly_sorted(n.keys@)) by {
                        assert forall|a: int, b: int| 0 <= a < b < n.keys.len() implies n.keys@[a] < n.keys@[b] by {
                            assert(n.keys@[a] == if a < j { k[a] } else { k[a + 1] });
                            assert(n.keys@[b] == if b < j { k[b] } else { k[b + 1] });
                        }
                    }
                    assert forall|x: u32| #[trigger] n.keys@.contains(x) <==> k.contains(x) && x != *key by {
                        if n.keys@.contains(x) {
                            let a = choose|a: int| 0 <= a < n.keys.len() && n.keys@[a] == x;
                            if a < j {
                                assert(k[a] == x);
                                assert(k[a] < k[j as int]);
                            } else {
                                assert(k[a + 1] == x);
                                assert(k[j as int] < k[a + 1]);
                            }
                        }
                        if k.contains(x) && x != *key {
                            let a = choose|a: int| 0 <= a < k.len() && k[a] == x;
                            if a < j {
                                assert(n.keys@[a] == x);
                            } else {
                                assert(a != j);
                                assert(n.keys@[a - 1] == x);
                            }
                        }
                    }
                    assert(k.contains(*key)) by { assert(k[j as int] == *key); }
                    assert(n@ =~= o@.remove(*key));
                }
                Some(*key)
            } else {
                proof {
                    assert(o.child_fits(j as int));
                    assert(o.children@[j as int].ordered());
                }
                let largest = self.children[j].take_largest();
                self.keys.set(j, largest);
                proof {
                    let n = *self;
                    let oc = o.children@[j as int];
                    let nc = n.children@[j as int];
                    let k = o.keys@;
                    assert(n.children@ =~= o.children@.update(j as int, nc));
                    assert(o.between(j as int, largest));
                    assert forall|a: int| 0 <= a < n.keys.len() && a != j implies #[trigger] n.keys@[a] == k[a] by {}
                    assert(strictly_sorted(n.keys@)) by {
                        assert forall|a: int, b: int| 0 <= a < b < n.keys.len() implies n.keys@[a] < n.keys@[b] by {
                            if a == j {
                                assert(k[j as int] < k[b]);
                            } else if b == j {
                                assert(k[a] <= k[j - 1]);
                            }
                        }
                    }
                    assert forall|x: u32| #[trigger] nc@.contains(x) implies n.between(j as int, x) by {
                        assert(oc@.contains(x));
                        assert(o.between(j as int, x));
                        assert(x != largest);
                    }
                    assert(nc@.insert(largest) =~= oc@);
                    lemma_key_replaced(o, n, j as int, largest);
                    assert(k.contains(*key)) by { assert(k[j as int] == *key); }
                    assert(o@.contains(*key));
                    assert forall|a: int| 0 <= a < n.children.len() && a != j implies #[trigger] n.child_fits(a) by {
                        assert(n.children@[a] == o.children@[a]);
                        assert(o.child_fits(a));
                    }
                    if j == 0 {
                        assert(n.height() == o.height());
                    } else {
                        assert(n.children@[0] == o.children@[0]);
                    }
                }
                if self.children[j].keys.len() == 0 {
                    self.fix_underflow(j);
                } else {
                    proof {
                        assert((*self).child_fits(j as int));
                        (*self).lemma_fits_balanced();
                    }
                }
                Some(*key)
            }
        } else {
            proof {
                if i > 0 {
                    assert(o.keys@[i - 1] < *key);
                }
                assert(o.between(i as int, *key));
            }
            if self.is_leaf {
                proof {
                    o.lemma_leaf_view();
                    if o.keys@.contains(*key) {
                        let j = choose|j: int| 0 <= j < o.keys.len() && o.keys@[j] == *key;
                        if j < i - 1 {
                            assert(o.keys@[j] < o.keys@[i - 1]);
                        }
                    }
                    assert(o@.remove(*key) =~= o@);
                }
                None
            } else {
                proof {
                    o.lemma_route(i as int, *key);
                    assert(o.child_fits(i as int));
                    assert(o.children@[i as int].ordered());
                    o.children@[i as int].lemma_leaf_iff_height();
                }
                let r = self.children[i].remove(key);
                proof {
                    let n = *self;
                    let oc = o.children@[i as int];
                    let nc = n.children@[i as int];
                    assert(n.children@ =~= o.children@.update(i as int, nc));
                    assert forall|x: u32| nc@.contains(x) implies o.between(i as int, x) by {
                        assert(oc@.contains(x));
                    }
                    lemma_replace_child(o, n, i as int);
                    assert forall|x: u32| #[trigger] n@.contains(x) <==> o@.remove(*key).contains(x) by {
                        if o.between(i as int, x) {
                            o.lemma_route(i as int, x);
                        }
                    }
                    assert(n@ =~= o@.remove(*key));
                    assert forall|a: int| 0 <= a < n.children.len() && a != i implies #[trigger] n.child_fits(a) by {
                        assert(n.children@[a] == o.children@[a]);
                        assert(o.child_fits(a));
                    }
                    if i == 0 {
                        assert(n.height() == o.height());
                    } else {
                        assert(n.children@[0] == o.children@[0]);
                    }
                }
                if self.children[i].keys.len() == 0 {
                    self.fix_underflow(i);
                } else {
                    proof {
                        assert((*self).child_fits(i as int));
                        (*self).lemma_fits_balanced();
                    }
                }
                r
            }
        }
    }

    /// Appends to `out` the key lists of the nodes `d` levels below this
    /// one, left to right.
    fn collect_depth(&self, d: usize, out: &mut Vec<Vec<u32>>)
        ensures
            final(out).deep_view() == old(out).deep_view() + self.keys_at_depth(d as nat),
        decreases self,
    {
        let ghost start = out.deep_view();
        if d == 0 {
            let mut row: Vec<u32> = Vec::new();
            let mut i: usize = 0;
            while i < self.keys.len()
                invariant
                    i <= self.keys.len(),
                    row@ == self.keys@.subrange(0, i as int),
                decreases self.keys.len() - i,
            {
                row.push(self.keys[i]);
                i = i + 1;
            }
            out.push(row);
            proof {
                assert(row@ =~= self.keys@);
                assert(row.deep_view() =~= self.keys@);
                assert(out.deep_view() =~= start + self.keys_at_depth(0));
            }
        } else {
            let mut j: usize = 0;
            while j < self.children.len()
                invariant
                    j <= self.children.len(),
                    d > 0,
                    out.deep_view() == start + self.keys_at_depth_upto(d as nat, j as int),
                decreases self.children.len() - j,
            {
                proof {
                    self.lemma_child_decreases(j as int);
                }
                self.children[j].collect_depth(d - 1, out);
                proof {
                    assert(start + self.keys_at_depth_upto(d as nat, j + 1) =~= start
                        + self.keys_at_depth_upto(d as nat, j as int) + self.children@[j as int].keys_at_depth(
                        (d - 1) as nat,
                    ));
                }
                j = j + 1;
            }
        }
    }

    pub fn new(is_leaf: bool) -> (r: Node)
        ensures
            r.leaf() == is_leaf,
            r.key_count() == 0,
            r@ == Set::<u32>::empty(),
            is_leaf ==> r.ordered(),
    {
        let r = Node { keys: Vec::new(), children: Vec::new(), is_leaf };
        assert(r@ =~= Set::<u32>::empty());
        r
    }

    /// Looks `key` up below this node: a reference to the equal key held
    /// there, or `None`.
    pub fn search(&self, key: &u32) -> (r: Option<&u32>)
        requires
            self.ordered(),
        ensures
            r is Some <==> self@.contains(*key),
            r matches Some(v) ==> *v == *key,
        decreases self,
    {
        let i = upper_bound(&self.keys, *key);
        if i > 0 && self.keys[i - 1] == *key {
            proof {
                assert(self.keys@.contains(*key));
            }
            Some(&self.keys[i - 1])
        } else {
            proof {
                if i > 0 {
                    assert(self.keys@[i - 1] < *key);
                }
            }
            if self.is_leaf {
                proof {
                    self.lemma_leaf_view();
                    if self.keys@.contains(*key) {
                        let j = choose|j: int| 0 <= j < self.keys.len() && self.keys@[j] == *key;
                        if j < i - 1 {
                            assert(self.keys@[j] < self.keys@[i - 1]);
                        }
                    }
                }
                None
            } else {
                proof {
                    self.lemma_route(i as int, *key);
                }
                self.children[i].search(key)
            }
        }
    }
}

/// The node `n` is `o` with child `i` replaced by a subtree whose keys stay
/// in the range of child `i`.
proof fn lemma_replace_child(o: Node, n: Node, i: int)
    requires
        o.ordered(),
        !o.is_leaf,
        !n.is_leaf,
        0 <= i < o.children.len(),
        n.keys == o.keys,
        n.children@ == o.children@.update(i, n.children@[i]),
        n.children@[i].ordered(),
        forall|x: u32| n.children@[i]@.contains(x) ==> o.between(i, x),
    ensures
        n.ordered(),
        forall|x: u32|
            #[trigger] n@.contains(x) <==> if o.between(i, x) {
                n.children@[i]@.contains(x)
            } else {
                o@.contains(x)
            },
{
    let c = o.children@;
    assert forall|j: int| 0 <= j < n.children.len() && j != i implies #[trigger] n.children@[j] == c[j] by {}
    assert(n.ordered()) by {
        assert forall|j: int, x: u32| 0 <= j < n.children.len() && #[trigger] n.children@[j]@.contains(x) implies n.between(j, x) by {
            if j != i {
                assert(o.between(j, x));
            } else {
                assert(o.between(i, x));
            }
            assert(n.keys@ == o.keys@);
        }
    }
    assert forall|x: u32| #[trigger] n@.contains(x) <==> if o.between(i, x) {
        n.children@[i]@.contains(x)
    } else {
        o@.contains(x)
    } by {
        assert(n.keys@ == o.keys@);
        if o.between(i, x) {
            n.lemma_route(i, x);
        } else {
            if n@.contains(x) && !n.keys@.contains(x) {
                let j = choose|j: int| #![trigger n.children@[j]] 0 <= j < n.children.len() && n.children@[j]@.contains(x);
                assert(j != i);
                assert(c[j]@.contains(x));
            }
            if o@.contains(x) && !o.keys@.contains(x) {
                let j = choose|j: int| #![trigger c[j]] 0 <= j < c.len() && c[j]@.contains(x);
                assert(o.between(j, x));
                assert(j != i);
                assert(n.children@[j]@.contains(x));
            }
        }
    }
}

/// An ordered set of `u32` keys in a B-Tree of minimum degree 2.
pub struct BTree {
    root: Option<Node>,
}

impl BTree {
    /// The keys stored in the tree.
    pub closed spec fn view(&self) -> Set<u32> {
        match self.root {
            Some(root) => root@,
            None => Set::empty(),
        }
    }

    /// All leaves lie at the same depth and every node, the root included,
    /// holds one to three keys in increasing order, each subtree between the
    /// keys around it.
    pub closed spec fn wf(&self) -> bool {
        self.root matches Some(root) ==> {
            &&& root.ordered()
            &&& root.balanced()
            &&& 1 <= root.keys.len() <= 3
        }
    }

    /// An empty tree.
    pub fn new() -> (t: BTree)
        ensures
            t.wf(),
            t@ == Set::<u32>::empty(),
    {
        BTree { root: None }
    }

    /// Adds `key`; adding a key that is already stored changes nothing. A
    /// full root is split first, which is the only way the tree grows taller.
    pub fn insert(&mut self, key: u32)
        requires
            old(self).wf(),
        ensures
            final(self).wf(),
            final(self)@ == old(self)@.insert(key),
    {
        match self.root.take() {
            None => {
                let mut node = Node::new(true);
                node.insert_non_full(key);
                proof {
                    node.lemma_leaf_view();
                    assert(node@.contains(key));
                    assert(node.keys@.contains(key));
                    assert(Set::<u32>::empty().insert(key) =~= old(self)@.insert(key));
                }
                self.root = Some(node);
            },
            Some(mut root) => {
                if root.keys.len() == MAX_DEGREE {
                    let mut children = Vec::new();
                    children.push(root);
                    let mut new_root = Node { keys: Vec::new(), children, is_leaf: false };
                    proof {
                        let g = new_root;
                        assert(g.children@[0] == root);
                        assert(g.ordered()) by {
                            assert forall|j: int| 0 <= j < g.children.len() implies #[trigger] g.children@[j].ordered() by {
                                assert(j == 0);
                            }
                        }
                        assert(g.height() == root.height() + 1);
                        assert(g@ =~= root@) by {
                            assert forall|x: u32| g@.contains(x) implies root@.contains(x) by {
                                if !g.keys@.contains(x) {
                                    let j = choose|j: int| #![trigger g.children@[j]] 0 <= j < g.children.len() && g.children@[j]@.contains(x);
                                    assert(j == 0);
                                }
                            }
                            assert forall|x: u32| root@.contains(x) implies g@.contains(x) by {
                                assert(g.children@[0]@.contains(x));
                            }
                        }
                    }
                    new_root.split_child(0);
                    new_root.insert_non_full(key);
                    self.root = Some(new_root);
                } else {
                    root.insert_non_full(key);
                    self.root = Some(root);
                }
            },
        }
    }

    /// The key lists of the nodes at depth `depth`, left to right; the root
    /// is at depth 0.
    pub closed spec fn keys_at_depth(&self, depth: nat) -> Seq<Seq<u32>> {
        match self.root {
            Some(root) => root.keys_at_depth(depth),
            None => Seq::empty(),
        }
    }

    /// Lists, left to right, the keys of each node at depth `depth`: one
    /// line of a level-order listing of the tree.
    pub fn level(&self, depth: usize) -> (r: Vec<Vec<u32>>)
        ensures
            r.deep_view() == self.keys_at_depth(depth as nat),
    {
        let mut out: Vec<Vec<u32>> = Vec::new();
        match &self.root {
            Some(node) => {
                node.collect_depth(depth, &mut out);
                proof {
                    assert(out.deep_view() =~= node.keys_at_depth(depth as nat));
                }
            },
            None => {
                proof {
                    assert(out.deep_view() =~= Seq::<Seq<u32>>::empty());
                }
            },
        }
        out
    }

    /// Looks `key` up: a reference to the equal stored key, or `None`.
    pub fn get(&self, key: &u32) -> (r: Option<&u32>)
        requires
            self.wf(),
        ensures
            r is Some <==> self@.contains(*key),
            r matches Some(v) ==> *v == *key,
    {
        match &self.root {
            Some(node) => node.search(key),
            None => None,
        }
    }

    /// Removes `key` and returns it, or returns `None` and changes nothing
    /// when it is not stored. When the root is left without keys, its only
    /// child takes its place.
    pub fn remove(&mut self, key: &u32) -> (r: Option<u32>)
        requires
            old(self).wf(),
        ensures
            final(self).wf(),
            final(self)@ == old(self)@.remove(*key),
            r == if old(self)@.contains(*key) {
                Some(*key)
            } else {
                None::<u32>
            },
    {
        match self.root.take() {
            None => {
                proof {
                    assert(old(self)@.remove(*key) =~= Set::<u32>::empty());
                }
                None
            },
            Some(mut root) => {
                let r = root.remove(key);
                if root.keys.len() == 0 {
                    if root.is_leaf {
                        proof {
                            root.lemma_leaf_view();
                            assert(root@ =~= Set::<u32>::empty());
                        }
                    } else {
                        let ghost before = root;
                        let child = root.children.pop().unwrap();
                        proof {
                            assert(child == before.children@[0]);
                            assert(before.child_fits(0));
                            assert(child.ordered());
                            assert(before@ =~= child@) by {
                                assert forall|x: u32| before@.contains(x) implies child@.contains(x) by {
                                    if !before.keys@.contains(x) {
                                        let j = choose|j: int| #![trigger before.children@[j]] 0 <= j < before.children.len() && before.children@[j]@.contains(x);
                                        assert(j == 0);
                                    }
                                }
                                assert forall|x: u32| child@.contains(x) implies before@.contains(x) by {
                                    assert(before.children@[0]@.contains(x));
                                }
                            }
                        }
                        self.root = Some(child);
                    }
                } else {
                    self.root = Some(root);
                }
                r
            },
        }
    }
}

/// The keys that moving the last child of `o` takes along: none for a leaf.
spec fn last_child_view(o: Node) -> Set<u32> {
    if o.is_leaf {
        Set::empty()
    } else {
        o.children@.last()@
    }
}

/// The keys that moving the first child of `o` takes along: none for a leaf.
spec fn first_child_view(o: Node) -> Set<u32> {
    if o.is_leaf {
        Set::empty()
    } else {
        o.children@[0]@
    }
}

/// A child that may move between siblings one level below a node of height
/// `h`: ordered, balanced, one level down, and holding one to three keys.
spec fn movable(g: Node, h: nat) -> bool {
    &&& g.ordered()
    &&& g.balanced()
    &&& g.height() + 1 == h
    &&& 1 <= g.keys.len() <= 3
}

/// `n` is `o` without its last key `k` (and, if internal, its last child).
proof fn lemma_drop_last(o: Node, n: Node)
    requires
        o.ordered(),
        o.balanced(),
        1 <= o.keys.len(),
        n.is_leaf == o.is_leaf,
        n.keys@ == o.keys@.drop_last(),
        n.children@ == if o.is_leaf {
            o.children@
        } else {
            o.children@.drop_last()
        },
    ensures
        n.ordered(),
        n.balanced(),
        n.height() == o.height(),
        n@.union(last_child_view(o)).insert(o.keys@.last()) == o@,
        forall|x: u32| n@.contains(x) ==> x < o.keys@.last(),
        forall|x: u32| last_child_view(o).contains(x) ==> o.keys@.last() < x,
        !o.is_leaf ==> movable(o.children@.last(), o.height()),
{
    let k = o.keys@;
    let c = o.children@;
    let last = k.len() - 1;
    assert forall|a: int| 0 <= a < n.keys.len() implies #[trigger] n.keys@[a] == k[a] by {}
    assert forall|x: u32| #[trigger] n.keys@.contains(x) <==> k.contains(x) && x != k[last] by {
        if n.keys@.contains(x) {
            let a = choose|a: int| 0 <= a < n.keys.len() && n.keys@[a] == x;
            assert(k[a] == x);
        }
        if k.contains(x) && x != k[last] {
            let a = choose|a: int| 0 <= a < k.len() && k[a] == x;
            assert(n.keys@[a] == x);
        }
    }
    assert(k.contains(k[last]));
    if o.is_leaf {
        o.lemma_leaf_view();
        n.lemma_leaf_view();
        assert forall|x: u32| n@.contains(x) implies x < k[last] by {
            let a = choose|a: int| 0 <= a < n.keys.len() && n.keys@[a] == x;
        }
        assert(n@.union(last_child_view(o)).insert(k[last]) =~= o@);
    } else {
        let g = c[last + 1];
        assert forall|a: int| 0 <= a < n.children.len() implies #[trigger] n.children@[a] == c[a] by {}
        assert(n.ordered()) by {
            assert forall|a: int, x: u32| 0 <= a < n.children.len() && #[trigger] n.children@[a]@.contains(x) implies n.between(a, x) by {
                assert(o.between(a, x));
            }
        }
        assert(c[0].height() + 1 == o.height());
        assert(n.balanced()) by {
            assert forall|a: int| 0 <= a < n.children.len() implies #[trigger] n.child_fits(a) by {
                assert(o.child_fits(a));
            }
            n.lemma_fits_balanced();
        }
        assert(o.child_fits(last + 1));
        assert forall|x: u32| #[trigger] o@.contains(x) <==> n@.union(g@).insert(k[last]).contains(x) by {
            if o@.contains(x) && !k.contains(x) {
                let a = choose|a: int| #![trigger c[a]] 0 <= a < c.len() && c[a]@.contains(x);
                if a <= last {
                    assert(n.children@[a]@.contains(x));
                }
            }
            if n@.contains(x) && !n.keys@.contains(x) {
                let a = choose|a: int| #![trigger n.children@[a]] 0 <= a < n.children.len() && n.children@[a]@.contains(x);
                assert(c[a]@.contains(x));
            }
            if g@.contains(x) {
                assert(c[last + 1]@.contains(x));
            }
        }
        assert forall|x: u32| n@.contains(x) implies x < k[last] by {
            if n.keys@.contains(x) {
                let a = choose|a: int| 0 <= a < n.keys.len() && n.keys@[a] == x;
            } else {
                let a = choose|a: int| #![trigger n.children@[a]] 0 <= a < n.children.len() && n.children@[a]@.contains(x);
                assert(o.between(a, x));
                assert(k[a] <= k[last]);
            }
        }
        assert forall|x: u32| g@.contains(x) implies k[last] < x by {
            assert(o.between(last + 1, x));
        }
        assert(n@.union(last_child_view(o)).insert(k[last]) =~= o@);
    }
}

/// `n` is `o` without its first key `k` (and, if internal, its first child).
proof fn lemma_drop_first(o: Node, n: Node)
    requires
        o.ordered(),
        o.balanced(),
        1 <= o.keys.len(),
        n.is_leaf == o.is_leaf,
        n.keys@ == o.keys@.subrange(1, o.keys.len() as int),
        n.children@ == if o.is_leaf {
            o.children@
        } else {
            o.children@.subrange(1, o.children.len() as int)
        },
    ensures
        n.ordered(),
        n.balanced(),
        n.height() == o.height(),
        n@.union(first_child_view(o)).insert(o.keys@[0]) == o@,
        forall|x: u32| n@.contains(x) ==> o.keys@[0] < x,
        forall|x: u32| first_child_view(o).contains(x) ==> x < o.keys@[0],
        !o.is_leaf ==> movable(o.children@[0], o.height()),
{
    let k = o.keys@;
    let c = o.children@;
    assert forall|a: int| 0 <= a < n.keys.len() implies #[trigger] n.keys@[a] == k[a + 1] by {}
    assert forall|x: u32| #[trigger] n.keys@.contains(x) <==> k.contains(x) && x != k[0] by {
        if n.keys@.contains(x) {
            let a = choose|a: int| 0 <= a < n.keys.len() && n.keys@[a] == x;
            assert(k[a + 1] == x);
        }
        if k.contains(x) && x != k[0] {
            let a = choose|a: int| 0 <= a < k.len() && k[a] == x;
            assert(n.keys@[a - 1] == x);
        }
    }
    assert(k.contains(k[0]));
    if o.is_leaf {
        o.lemma_leaf_view();
        n.lemma_leaf_view();
        assert forall|x: u32| n@.contains(x) implies k[0] < x by {
            let a = choose|a: int| 0 <= a < n.keys.len() && n.keys@[a] == x;
        }
        assert(n@.union(first_child_view(o)).insert(k[0]) =~= o@);
    } else {
        let g = c[0];
        assert forall|a: int| 0 <= a < n.children.len() implies #[trigger] n.children@[a] == c[a + 1] by {}
        assert(n.ordered()) by {
            assert forall|a: int| 0 <= a < n.children.len() implies #[trigger] n.children@[a].ordered() by {
                assert(c[a + 1].ordered());
            }
            assert forall|a: int, x: u32| 0 <= a < n.children.len() && #[trigger] n.children@[a]@.contains(x) implies n.between(a, x) by {
                assert(o.between(a + 1, x));
            }
        }
        assert(c[1].height() + 1 == o.height());
        assert(n.balanced()) by {
            assert forall|a: int| 0 <= a < n.children.len() implies #[trigger] n.child_fits(a) by {
                assert(o.child_fits(a + 1));
            }
            n.lemma_fits_balanced();
        }
        assert(o.child_fits(0));
        assert forall|x: u32| #[trigger] o@.contains(x) <==> n@.union(g@).insert(k[0]).contains(x) by {
            if o@.contains(x) && !k.contains(x) {
                let a = choose|a: int| #![trigger c[a]] 0 <= a < c.len() && c[a]@.contains(x);
                if a > 0 {
                    assert(n.children@[a - 1]@.contains(x));
                }
            }
            if n@.contains(x) && !n.keys@.contains(x) {
                let a = choose|a: int| #![trigger n.children@[a]] 0 <= a < n.children.len() && n.children@[a]@.contains(x);
                assert(c[a + 1]@.contains(x));
            }
            if g@.contains(x) {
                assert(c[0]@.contains(x));
            }
        }
        assert forall|x: u32| n@.contains(x) implies k[0] < x by {
            if n.keys@.contains(x) {
                let a = choose|a: int| 0 <= a < n.keys.len() && n.keys@[a] == x;
            } else {
                let a = choose|a: int| #![trigger n.children@[a]] 0 <= a < n.children.len() && n.children@[a]@.contains(x);
                assert(o.between(a + 1, x));
                assert(k[0] <= k[a]);
            }
        }
        assert forall|x: u32| g@.contains(x) implies x < k[0] by {
            assert(o.between(0, x));
        }
        assert(n@.union(first_child_view(o)).insert(k[0]) =~= o@);
    }
}

/// `n` is `o` with key `k` (and, if internal, child `g`) put in front.
proof fn lemma_push_front(o: Node, n: Node, k: u32, g: Node)
    requires
        o.ordered(),
        o.balanced(),
        forall|x: u32| o@.contains(x) ==> k < x,
        !o.is_leaf ==> movable(g, o.height()),
        !o.is_leaf ==> forall|x: u32| g@.contains(x) ==> x < k,
        n.is_leaf == o.is_leaf,
        n.keys@ == o.keys@.insert(0, k),
        n.children@ == if o.is_leaf {
            o.children@
        } else {
            o.children@.insert(0, g)
        },
    ensures
        n.ordered(),
        n.balanced(),
        n.height() == o.height(),
        n@ == o@.union(if o.is_leaf { Set::empty() } else { g@ }).insert(k),
{
    let ok = o.keys@;
    let c = o.children@;
    assert forall|a: int| 0 < a < n.keys.len() implies #[trigger] n.keys@[a] == ok[a - 1] by {}
    assert(n.keys@[0] == k);
    assert forall|a: int| 0 <= a < ok.len() implies k < #[trigger] ok[a] by {
        assert(ok.contains(ok[a]));
        assert(o@.contains(ok[a]));
    }
    assert(strictly_sorted(n.keys@)) by {
        assert forall|a: int, b: int| 0 <= a < b < n.keys.len() implies n.keys@[a] < n.keys@[b] by {
            if a > 0 {
                assert(n.keys@[a] == ok[a - 1]);
            }
            assert(n.keys@[b] == ok[b - 1]);
        }
    }
    assert forall|x: u32| #[trigger] n.keys@.contains(x) <==> ok.contains(x) || x == k by {
        if n.keys@.contains(x) {
            let a = choose|a: int| 0 <= a < n.keys.len() && n.keys@[a] == x;
            if a > 0 {
                assert(ok[a - 1] == x);
            }
        }
        if ok.contains(x) {
            let a = choose|a: int| 0 <= a < ok.len() && ok[a] == x;
            assert(n.keys@[a + 1] == x);
        }
        if x == k {
            assert(n.keys@[0] == x);
        }
    }
    if o.is_leaf {
        o.lemma_leaf_view();
        n.lemma_leaf_view();
        assert(n@ =~= o@.union(Set::empty()).insert(k));
    } else {
        assert forall|a: int| 0 < a < n.children.len() implies #[trigger] n.children@[a] == c[a - 1] by {}
        assert(n.children@[0] == g);
        assert(n.ordered()) by {
            assert forall|a: int| 0 <= a < n.children.len() implies #[trigger] n.children@[a].ordered() by {
                if a > 0 {
                    assert(c[a - 1].ordered());
                }
            }
            assert forall|a: int, x: u32| 0 <= a < n.children.len() && #[trigger] n.children@[a]@.contains(x) implies n.between(a, x) by {
                if a > 0 {
                    assert(o.between(a - 1, x));
                    assert(o@.contains(x));
                }
            }
        }
        assert(c[0].height() + 1 == o.height());
        assert(n.balanced()) by {
            assert forall|a: int| 0 <= a < n.children.len() implies #[trigger] n.child_fits(a) by {
                if a > 0 {
                    assert(o.child_fits(a - 1));
                }
            }
            n.lemma_fits_balanced();
        }
        assert forall|x: u32| #[trigger] n@.contains(x) <==> o@.union(g@).insert(k).contains(x) by {
            if n@.contains(x) && !n.keys@.contains(x) {
                let a = choose|a: int| #![trigger n.children@[a]] 0 <= a < n.children.len() && n.children@[a]@.contains(x);
                if a > 0 {
                    assert(c[a - 1]@.contains(x));
                }
            }
            if o@.contains(x) && !ok.contains(x) {
                let a = choose|a: int| #![trigger c[a]] 0 <= a < c.len() && c[a]@.contains(x);
                assert(n.children@[a + 1]@.contains(x));
            }
            if g@.contains(x) {
                assert(n.children@[0]@.contains(x));
            }
        }
        assert(n@ =~= o@.union(g@).insert(k));
    }
}

/// `n` is `o` with key `k` (and, if internal, child `g`) put at the end.
proof fn lemma_push_back(o: Node, n: Node, k: u32, g: Node)
    requires
        o.ordered(),
        o.balanced(),
        forall|x: u32| o@.contains(x) ==> x < k,
        !o.is_leaf ==> movable(g, o.height()),
        !o.is_leaf ==> forall|x: u32| g@.contains(x) ==> k < x,
        n.is_leaf == o.is_leaf,
        n.keys@ == o.keys@.push(k),
        n.children@ == if o.is_leaf {
            o.children@
        } else {
            o.children@.push(g)
        },
    ensures
        n.ordered(),
        n.balanced(),
        n.height() == o.height(),
        n@ == o@.union(if o.is_leaf { Set::empty() } else { g@ }).insert(k),
{
    let ok = o.keys@;
    let c = o.children@;
    let nk = ok.len() as int;
    assert forall|a: int| 0 <= a < nk implies #[trigger] n.keys@[a] == ok[a] by {}
    assert(n.keys@[nk] == k);
    assert forall|a: int| 0 <= a < nk implies #[trigger] ok[a] < k by {
        assert(ok.contains(ok[a]));
        assert(o@.contains(ok[a]));
    }
    assert forall|x: u32| #[trigger] n.keys@.contains(x) <==> ok.contains(x) || x == k by {
        if n.keys@.contains(x) {
            let a = choose|a: int| 0 <= a < n.keys.len() && n.keys@[a] == x;
            if a < nk {
                assert(ok[a] == x);
            }
        }
        if ok.contains(x) {
            let a = choose|a: int| 0 <= a < ok.len() && ok[a] == x;
            assert(n.keys@[a] == x);
        }
        if x == k {
            assert(n.keys@[nk] == x);
        }
    }
    if o.is_leaf {
        o.lemma_leaf_view();
        n.lemma_leaf_view();
        assert(n@ =~= o@.union(Set::empty()).insert(k));
    } else {
        let last = c.len() as int;
        assert forall|a: int| 0 <= a < last implies #[trigger] n.children@[a] == c[a] by {}
        assert(n.children@[last] == g);
        assert(n.ordered()) by {
            assert forall|a: int| 0 <= a < n.children.len() implies #[trigger] n.children@[a].ordered() by {
                if a < last {
                    assert(c[a].ordered());
                }
            }
            assert forall|a: int, x: u32| 0 <= a < n.children.len() && #[trigger] n.children@[a]@.contains(x) implies n.between(a, x) by {
                if a < last {
                    assert(o.between(a, x));
                    assert(o@.contains(x));
                }
            }
        }
        assert(c[0].height() + 1 == o.height());
        assert(n.balanced()) by {
            assert forall|a: int| 0 <= a < n.children.len() implies #[trigger] n.child_fits(a) by {
                if a < last {
                    assert(o.child_fits(a));
                }
            }
            n.lemma_fits_balanced();
        }
        assert forall|x: u32| #[trigger] n@.contains(x) <==> o@.union(g@).insert(k).contains(x) by {
            if n@.contains(x) && !n.keys@.contains(x) {
                let a = choose|a: int| #![trigger n.children@[a]] 0 <= a < n.children.len() && n.children@[a]@.contains(x);
                if a < last {
                    assert(c[a]@.contains(x));
                }
            }
            if o@.contains(x) && !ok.contains(x) {
                let a = choose|a: int| #![trigger c[a]] 0 <= a < c.len() && c[a]@.contains(x);
                assert(n.children@[a]@.contains(x));
            }
            if g@.contains(x) {
                assert(n.children@[last]@.contains(x));
            }
        }
        assert(n@ =~= o@.union(g@).insert(k));
    }
}

/// `n` is the node `l`, then key `k`, then the node `r`, all of one kind.
proof fn lemma_concat(l: Node, r: Node, k: u32, n: Node)
    requires
        l.ordered(),
        r.ordered(),
        l.balanced(),
        r.balanced(),
        l.is_leaf == r.is_leaf,
        l.height() == r.height(),
        forall|x: u32| l@.contains(x) ==> x < k,
        forall|x: u32| r@.contains(x) ==> k < x,
        n.is_leaf == l.is_leaf,
        n.keys@ == l.keys@.push(k) + r.keys@,
        n.children@ == l.children@ + r.children@,
    ensures
        n.ordered(),
        n.balanced(),
        n.height() == l.height(),
        n@ == l@.union(r@).insert(k),
{
    let nl = l.keys.len() as int;
    let lk = l.keys@;
    let rk = r.keys@;
    let lc = l.children@;
    let rc = r.children@;
    assert forall|a: int| 0 <= a < nl implies #[trigger] n.keys@[a] == lk[a] by {}
    assert forall|b: int| 0 <= b < rk.len() implies #[trigger] n.keys@[nl + 1 + b] == rk[b] by {}
    assert(n.keys@[nl] == k);
    assert forall|a: int| 0 <= a < nl implies #[trigger] lk[a] < k by {
        assert(lk.contains(lk[a]));
        assert(l@.contains(lk[a]));
    }
    assert forall|b: int| 0 <= b < rk.len() implies k < #[trigger] rk[b] by {
        assert(rk.contains(rk[b]));
        assert(r@.contains(rk[b]));
    }
    assert(strictly_sorted(n.keys@)) by {
        assert forall|a: int, b: int| 0 <= a < b < n.keys.len() implies n.keys@[a] < n.keys@[b] by {
            if b < nl {
            } else if b == nl {
            } else if a < nl {
                assert(lk[a] < k);
                assert(k < rk[b - nl - 1]);
            } else if a == nl {
                assert(k < rk[b - nl - 1]);
            } else {
                assert(n.keys@[a] == rk[a - nl - 1]);
                assert(n.keys@[b] == rk[b - nl - 1]);
            }
        }
    }
    assert forall|x: u32| #[trigger] n.keys@.contains(x) <==> lk.contains(x) || rk.contains(x) || x == k by {
        if n.keys@.contains(x) {
            let a = choose|a: int| 0 <= a < n.keys.len() && n.keys@[a] == x;
            if a < nl {
                assert(lk[a] == x);
            } else if a > nl {
                assert(rk[a - nl - 1] == x);
            }
        }
        if lk.contains(x) {
            let a = choose|a: int| 0 <= a < lk.len() && lk[a] == x;
            assert(n.keys@[a] == x);
        }
        if rk.contains(x) {
            let b = choose|b: int| 0 <= b < rk.len() && rk[b] == x;
            assert(n.keys@[nl + 1 + b] == x);
        }
        if x == k {
            assert(n.keys@[nl] == x);
        }
    }
    if l.is_leaf {
        l.lemma_leaf_view();
        r.lemma_leaf_view();
        n.lemma_leaf_view();
        assert(n@ =~= l@.union(r@).insert(k));
    } else {
        assert forall|a: int| 0 <= a <= nl implies #[trigger] n.children@[a] == lc[a] by {}
        assert forall|b: int| 0 <= b < rc.len() implies #[trigger] n.children@[nl + 1 + b] == rc[b] by {}
        assert(n.ordered()) by {
            assert forall|a: int| 0 <= a < n.children.len() implies #[trigger] n.children@[a].ordered() by {
                if a <= nl {
                    assert(lc[a].ordered());
                } else {
                    assert(n.children@[nl + 1 + (a - nl - 1)] == rc[a - nl - 1]);
                    assert(rc[a - nl - 1].ordered());
                }
            }
            assert forall|a: int, x: u32| 0 <= a < n.children.len() && #[trigger] n.children@[a]@.contains(x) implies n.between(a, x) by {
                if a <= nl {
                    assert(l.between(a, x));
                    assert(l@.contains(x));
                } else {
                    let b = a - nl - 1;
                    assert(n.children@[nl + 1 + b] == rc[b]);
                    assert(r.between(b, x));
                    assert(r@.contains(x));
                    if b > 0 {
                        assert(n.keys@[nl + 1 + (b - 1)] == rk[b - 1]);
                    }
                }
            }
        }
        assert(lc[0].height() + 1 == l.height());
        assert(n.height() == l.height());
        assert(n.balanced()) by {
            assert forall|a: int| 0 <= a < n.children.len() implies #[trigger] n.child_fits(a) by {
                if a <= nl {
                    assert(l.child_fits(a));
                } else {
                    let b = a - nl - 1;
                    assert(n.children@[nl + 1 + b] == rc[b]);
                    assert(r.child_fits(b));
                }
            }
            n.lemma_fits_balanced();
        }
        assert forall|x: u32| #[trigger] n@.contains(x) <==> l@.union(r@).insert(k).contains(x) by {
            if n@.contains(x) && !n.keys@.contains(x) {
                let a = choose|a: int| #![trigger n.children@[a]] 0 <= a < n.children.len() && n.children@[a]@.contains(x);
                if a <= nl {
                    assert(lc[a]@.contains(x));
                } else {
                    assert(n.children@[nl + 1 + (a - nl - 1)] == rc[a - nl - 1]);
                    assert(rc[a - nl - 1]@.contains(x));
                }
            }
            if l@.contains(x) && !lk.contains(x) {
                let a = choose|a: int| #![trigger lc[a]] 0 <= a < lc.len() && lc[a]@.contains(x);
                assert(n.children@[a]@.contains(x));
            }
            if r@.contains(x) && !rk.contains(x) {
                let b = choose|b: int| #![trigger rc[b]] 0 <= b < rc.len() && rc[b]@.contains(x);
                assert(n.children@[nl + 1 + b]@.contains(x));
            }
        }
        assert(n@ =~= l@.union(r@).insert(k));
    }
}

/// The node `n` is `o` with children `j` and `j + 1` and the key between
/// them rewritten, those three together holding the same keys as before.
proof fn lemma_pair_replaced(o: Node, n: Node, j: int)
    requires
        o.ordered(),
        !o.is_leaf,
        !n.is_leaf,
        0 <= j,
        j + 1 < o.children.len(),
        n.keys.len() == o.keys.len(),
        n.children.len() == o.children.len(),
        forall|a: int| 0 <= a < o.keys.len() && a != j ==> #[trigger] n.keys@[a] == o.keys@[a],
        forall|a: int|
            0 <= a < o.children.len() && a != j && a != j + 1 ==> #[trigger] n.children@[a]
                == o.children@[a],
        strictly_sorted(n.keys@),
        n.children@[j].ordered(),
        n.children@[j + 1].ordered(),
        forall|x: u32| #[trigger] n.children@[j]@.contains(x) ==> n.between(j, x),
        forall|x: u32| #[trigger] n.children@[j + 1]@.contains(x) ==> n.between(j + 1, x),
        n.children@[j]@.union(n.children@[j + 1]@).insert(n.keys@[j]) == o.children@[j]@.union(
            o.children@[j + 1]@,
        ).insert(o.keys@[j]),
    ensures
        n.ordered(),
        n@ == o@,
{
    let c = o.children@;
    let k = o.keys@;
    assert(n.ordered()) by {
        assert forall|a: int| 0 <= a < n.children.len() implies #[trigger] n.children@[a].ordered() by {
            if a != j && a != j + 1 {
                assert(c[a].ordered());
            }
        }
        assert forall|a: int, x: u32| 0 <= a < n.children.len() && #[trigger] n.children@[a]@.contains(x) implies n.between(a, x) by {
            if a != j && a != j + 1 {
                assert(o.between(a, x));
                if a > 0 {
                    assert(n.keys@[a - 1] == k[a - 1]);
                }
                if a < n.keys.len() {
                    assert(n.keys@[a] == k[a]);
                }
            }
        }
    }
    let before = c[j]@.union(c[j + 1]@).insert(k[j]);
    let after = n.children@[j]@.union(n.children@[j + 1]@).insert(n.keys@[j]);
    assert forall|x: u32| #[trigger] n@.contains(x) <==> o@.contains(x) by {
        if n@.contains(x) {
            if n.keys@.contains(x) {
                let a = choose|a: int| 0 <= a < n.keys.len() && n.keys@[a] == x;
                if a == j {
                    assert(after.contains(x));
                    assert(before.contains(x));
                    if x == k[j] {
                        assert(k.contains(x));
                    } else if c[j]@.contains(x) {
                    } else {
                        assert(c[j + 1]@.contains(x));
                    }
                } else {
                    assert(k[a] == x);
                    assert(k.contains(x));
                }
            } else {
                let a = choose|a: int| #![trigger n.children@[a]] 0 <= a < n.children.len() && n.children@[a]@.contains(x);
                if a == j || a == j + 1 {
                    assert(after.contains(x));
                    assert(before.contains(x));
                    if x == k[j] {
                        assert(k.contains(x));
                    } else if c[j]@.contains(x) {
                    } else {
                        assert(c[j + 1]@.contains(x));
                    }
                } else {
                    assert(c[a]@.contains(x));
                }
            }
        }
        if o@.contains(x) {
            if k.contains(x) {
                let a = choose|a: int| 0 <= a < k.len() && k[a] == x;
                if a == j {
                    assert(before.contains(x));
                    assert(after.contains(x));
                    if x == n.keys@[j] {
                        assert(n.keys@.contains(x));
                    } else if n.children@[j]@.contains(x) {
                    } else {
                        assert(n.children@[j + 1]@.contains(x));
                    }
                } else {
                    assert(n.keys@[a] == x);
                    assert(n.keys@.contains(x));
                }
            } else {
                let a = choose|a: int| #![trigger c[a]] 0 <= a < c.len() && c[a]@.contains(x);
                if a == j || a == j + 1 {
                    assert(before.contains(x));
                    assert(after.contains(x));
                    if x == n.keys@[j] {
                        assert(n.keys@.contains(x));
                    } else if n.children@[j]@.contains(x) {
                    } else {
                        assert(n.children@[j + 1]@.contains(x));
                    }
                } else {
                    assert(n.children@[a]@.contains(x));
                }
            }
        }
    }
    assert(n@ =~= o@);
}

/// The node `n` is `o` with children `j` and `j + 1` merged into one child
/// that also takes the key between them.
proof fn lemma_merged(o: Node, n: Node, j: int)
    requires
        o.ordered(),
        !o.is_leaf,
        !n.is_leaf,
        0 <= j,
        j + 1 < o.children.len(),
        n.keys@ == o.keys@.remove(j),
        n.children.len() + 1 == o.children.len(),
        forall|a: int| 0 <= a < j ==> #[trigger] n.children@[a] == o.children@[a],
        forall|a: int| j < a < n.children.len() ==> #[trigger] n.children@[a] == o.children@[a + 1],
        n.children@[j].ordered(),
        forall|x: u32| #[trigger] n.children@[j]@.contains(x) ==> n.between(j, x),
        n.children@[j]@ == o.children@[j]@.union(o.children@[j + 1]@).insert(o.keys@[j]),
    ensures
        n.ordered(),
        n@ == o@,
{
    let c = o.children@;
    let k = o.keys@;
    assert forall|a: int| 0 <= a < j implies #[trigger] n.keys@[a] == k[a] by {}
    assert forall|a: int| j <= a < n.keys.len() implies #[trigger] n.keys@[a] == k[a + 1] by {}
    assert(n.ordered()) by {
        assert forall|a: int, b: int| 0 <= a < b < n.keys.len() implies n.keys@[a] < n.keys@[b] by {
            if a < j {
                assert(n.keys@[a] == k[a]);
            } else {
                assert(n.keys@[a] == k[a + 1]);
            }
            if b < j {
                assert(n.keys@[b] == k[b]);
            } else {
                assert(n.keys@[b] == k[b + 1]);
            }
        }
        assert forall|a: int| 0 <= a < n.children.len() implies #[trigger] n.children@[a].ordered() by {
            if a < j {
                assert(c[a].ordered());
            } else if a > j {
                assert(c[a + 1].ordered());
            }
        }
        assert forall|a: int, x: u32| 0 <= a < n.children.len() && #[trigger] n.children@[a]@.contains(x) implies n.between(a, x) by {
            if a < j {
                assert(o.between(a, x));
            } else if a > j {
                assert(o.between(a + 1, x));
            }
        }
    }
    assert forall|x: u32| #[trigger] n@.contains(x) <==> o@.contains(x) by {
        if n@.contains(x) {
            if n.keys@.contains(x) {
                let a = choose|a: int| 0 <= a < n.keys.len() && n.keys@[a] == x;
                if a < j {
                    assert(k[a] == x);
                } else {
                    assert(k[a + 1] == x);
                }
                assert(k.contains(x));
            } else {
                let a = choose|a: int| #![trigger n.children@[a]] 0 <= a < n.children.len() && n.children@[a]@.contains(x);
                if a == j {
                    if x == k[j] {
                        assert(k.contains(x));
                    } else if c[j]@.contains(x) {
                    } else {
                        assert(c[j + 1]@.contains(x));
                    }
                } else if a < j {
                    assert(c[a]@.contains(x));
                } else {
                    assert(c[a + 1]@.contains(x));
                }
            }
        }
        if o@.contains(x) {
            if k.contains(x) {
                let a = choose|a: int| 0 <= a < k.len() && k[a] == x;
                if a < j {
                    assert(n.keys@[a] == x);
                    assert(n.keys@.contains(x));
                } else if a > j {
                    assert(n.keys@[a - 1] == x);
                    assert(n.keys@.contains(x));
                } else {
                    assert(n.children@[j]@.contains(x));
                }
            } else {
                let a = choose|a: int| #![trigger c[a]] 0 <= a < c.len() && c[a]@.contains(x);
                if a == j || a == j + 1 {
                    assert(n.children@[j]@.contains(x));
                } else if a < j {
                    assert(n.children@[a]@.contains(x));
                } else {
                    assert(n.children@[a - 1]@.contains(x));
                }
            }
        }
    }
    assert(n@ =~= o@);
}

/// The node `n` is `o` with key `j` replaced by `p`, the largest key of
/// child `j`, which that child no longer holds.
proof fn lemma_key_replaced(o: Node, n: Node, j: int, p: u32)
    requires
        o.ordered(),
        !o.is_leaf,
        !n.is_leaf,
        0 <= j < o.keys.len(),
        n.keys@ == o.keys@.update(j, p),
        n.children@ == o.children@.update(j, n.children@[j]),
        strictly_sorted(n.keys@),
        n.children@[j].ordered(),
        forall|x: u32| #[trigger] n.children@[j]@.contains(x) ==> n.between(j, x),
        n.children@[j]@.insert(p) == o.children@[j]@,
    ensures
        n.ordered(),
        n@ == o@.remove(o.keys@[j]),
{
    let c = o.children@;
    let k = o.keys@;
    assert forall|a: int| 0 <= a < n.children.len() && a != j implies #[trigger] n.children@[a] == c[a] by {}
    assert(c[j]@.contains(p));
    assert(o.between(j, p));
    assert(n.ordered()) by {
        assert forall|a: int| 0 <= a < n.children.len() implies #[trigger] n.children@[a].ordered() by {
            if a != j {
                assert(c[a].ordered());
            }
        }
        assert forall|a: int, x: u32| 0 <= a < n.children.len() && #[trigger] n.children@[a]@.contains(x) implies n.between(a, x) by {
            if a != j {
                assert(o.between(a, x));
                if a == j + 1 {
                    assert(p < k[j]);
                }
            }
        }
    }
    assert(k.contains(k[j]));
    assert forall|x: u32| #[trigger] n@.contains(x) <==> o@.remove(k[j]).contains(x) by {
        if n@.contains(x) {
            if n.keys@.contains(x) {
                let a = choose|a: int| 0 <= a < n.keys.len() && n.keys@[a] == x;
                if a == j {
                    assert(o@.contains(x)) by {
                        assert(c[j]@.contains(x));
                    }
                } else {
                    assert(k[a] == x);
                    assert(k.contains(x));
                    if a < j {
                        assert(k[a] < k[j]);
                    } else {
                        assert(k[j] < k[a]);
                    }
                }
            } else {
                let a = choose|a: int| #![trigger n.children@[a]] 0 <= a < n.children.len() && n.children@[a]@.contains(x);
                if a == j {
                    assert(c[j]@.contains(x));
                    assert(o.between(j, x));
                } else {
                    assert(c[a]@.contains(x));
                    assert(o.between(a, x));
                    if a < j {
                        assert(k[a] <= k[j - 1]);
                    } else {
                        assert(k[j] <= k[a - 1]);
                    }
                }
            }
        }
        if o@.remove(k[j]).contains(x) {
            if k.contains(x) {
                let a = choose|a: int| 0 <= a < k.len() && k[a] == x;
                assert(a != j);
                assert(n.keys@[a] == x);
                assert(n.keys@.contains(x));
            } else {
                let a = choose|a: int| #![trigger c[a]] 0 <= a < c.len() && c[a]@.contains(x);
                if a == j {
                    if x == p {
                        assert(n.keys@[j] == x);
                        assert(n.keys@.contains(x));
                    } else {
                        assert(n.children@[j]@.contains(x));
                    }
                } else {
                    assert(n.children@[a]@.contains(x));
                }
            }
        }
    }
    assert(n@ =~= o@.remove(k[j]));
}

} // verus!
