//! An ordered set of `u32` keys held in a B+Tree of configurable maximum
//! degree. Internal nodes hold routing keys only; every stored key lives in a
//! leaf, where it is kept together with its value (the key itself).
use vstd::prelude::*;

verus! {

/// Every element is at most the next one.
pub open spec fn sorted(s: Seq<u32>) -> bool {
    forall|i: int, j: int| 0 <= i < j < s.len() ==> s[i] <= s[j]
}

/// Every element is below the next one, so no key occurs twice.
pub open spec fn strictly_sorted(s: Seq<u32>) -> bool {
    forall|i: int, j: int| 0 <= i < j < s.len() ==> s[i] < s[j]
}

/// The fewest keys a node other than the root may hold in a tree of maximum
/// degree `m`: `ceil(m / 2) - 1`.
pub open spec fn min_keys(m: nat) -> nat {
    ((m - 1) / 2) as nat
}

/// One page of the tree. A leaf holds its keys in strictly increasing order,
/// each with its value; an internal node holds `n` routing keys in strictly
/// increasing order and `n + 1` children. Child `i` holds the keys from
/// routing key `i - 1` (included) up to routing key `i` (excluded).
pub struct Node {
    keys: Vec<u32>,
    values: Vec<u32>,
    children: Vec<Node>,
    is_leaf: bool,
}

impl Node {
    pub closed spec fn leaf(self) -> bool {
        self.is_leaf
    }

    pub closed spec fn key_count(self) -> nat {
        self.keys@.len()
    }

    /// Distance from this node down to its leaves.
    pub closed spec fn height(self) -> nat
        decreases self,
    {
        if self.is_leaf || self.children.len() == 0 {
            0
        } else {
            self.children@[0].height() + 1
        }
    }

    /// The key lists of the nodes `d` levels below this one, left to right.
    spec fn keys_at_depth(self, d: nat) -> Seq<Seq<u32>>
        decreases d, self.children.len() + 1,
    {
        if d == 0 {
            seq![self.keys@]
        } else {
            self.keys_at_depth_upto(d, self.children.len() as int)
        }
    }

    /// The key lists of the nodes `d` levels below this one that lie under
    /// its first `j` children, left to right.
    spec fn keys_at_depth_upto(self, d: nat, j: int) -> Seq<Seq<u32>>
        decreases d, j,
    {
        if d == 0 || j <= 0 || j > self.children.len() {
            Seq::empty()
        } else {
            self.keys_at_depth_upto(d, j - 1) + self.children@[j - 1].keys_at_depth((d - 1) as nat)
        }
    }

    /// The keys stored in the leaves of this subtree.
    pub closed spec fn view(self) -> Set<u32>
        decreases self,
    {
        if self.is_leaf {
            self.keys@.to_set()
        } else {
            Set::new(
                |x: u32|
                    exists|i: int|
                        #![trigger self.children@[i]]
                        0 <= i < self.children.len() && self.children@[i].view().contains(x),
            )
        }
    }

    /// Every key that occurs anywhere in this subtree, routing keys included.
    pub closed spec fn all_keys(self) -> Set<u32>
        decreases self,
    {
        self.keys@.to_set().union(
            Set::new(
                |x: u32|
                    exists|i: int|
                        #![trigger self.children@[i]]
                        0 <= i < self.children.len() && self.children@[i].all_keys().contains(x),
            ),
        )
    }

    /// `x` lies in the key range of child `i`: from routing key `i - 1`
    /// (included) up to routing key `i` (excluded).
    pub closed spec fn routes_to(self, i: int, x: u32) -> bool {
        &&& 0 < i ==> self.keys@[i - 1] <= x
        &&& i < self.keys.len() ==> x < self.keys@[i]
    }

    /// `x` lies between the routing keys on either side of child `i`, both
    /// included (the bound on routing keys inside that child).
    pub closed spec fn bounded_by(self, i: int, x: u32) -> bool {
        &&& 0 < i ==> self.keys@[i - 1] <= x
        &&& i < self.keys.len() ==> x <= self.keys@[i]
    }

    /// Keys are ordered and every subtree stays inside the range that its
    /// parent's routing keys give it. Routing keys are only required to be
    /// non-decreasing here; in a balanced tree they are strictly increasing
    /// (`lemma_separated`).
    pub closed spec fn ordered(self) -> bool
        decreases self,
    {
        if self.is_leaf {
            &&& self.children.len() == 0
            &&& self.values@ == self.keys@
            &&& strictly_sorted(self.keys@)
        } else {
            &&& self.values.len() == 0
            &&& self.children.len() == self.keys.len() + 1
            &&& sorted(self.keys@)
            &&& forall|i: int|
                #![trigger self.children@[i]]
                0 <= i < self.children.len() ==> self.children@[i].ordered()
            &&& forall|i: int, x: u32|
                0 <= i < self.children.len() && #[trigger] self.children@[i].all_keys().contains(x)
                    ==> self.bounded_by(i, x)
            &&& forall|i: int, x: u32|
                0 <= i < self.children.len() && #[trigger] self.children@[i].view().contains(x)
                    ==> self.routes_to(i, x)
        }
    }

    /// Every leaf below this node lies at the same depth, and every node
    /// below it holds between `min_keys(m)` and `m - 1` keys.
    pub closed spec fn balanced(self, m: nat) -> bool
        decreases self,
    {
        !self.is_leaf ==> forall|i: int|
            #![trigger self.children@[i]]
            0 <= i < self.children.len() ==> {
                &&& self.children@[i].balanced(m)
                &&& self.children@[i].height() + 1 == self.height()
                &&& min_keys(m) <= self.children@[i].keys.len() < m
            }
    }

    /// The routing keys of this node and of every internal node below it are
    /// strictly increasing.
    pub closed spec fn separated(self) -> bool
        decreases self,
    {
        !self.is_leaf ==> {
            &&& strictly_sorted(self.keys@)
            &&& forall|i: int|
                #![trigger self.children@[i]]
                0 <= i < self.children.len() ==> self.children@[i].separated()
        }
    }

    /// An ordered, balanced subtree whose root holds a key (or is internal)
    /// stores at least one key.
    proof fn lemma_nonempty(self, m: nat)
        requires
            self.ordered(),
            self.balanced(m),
            1 <= min_keys(m),
            !self.is_leaf || 1 <= self.keys.len(),
        ensures
            exists|x: u32| self@.contains(x),
        decreases self,
    {
        if self.is_leaf {
            self.lemma_leaf_all_keys();
            assert(self@.contains(self.keys@[0]));
        } else {
            let c = self.children@[0];
            self.lemma_child_decreases(0);
            c.lemma_nonempty(m);
            let x = choose|x: u32| c@.contains(x);
            assert(self@.contains(x));
        }
    }

    /// In a balanced tree every child holds a key, so routing keys that are
    /// merely ordered are in fact strictly increasing.
    pub proof fn lemma_separated(self, m: nat)
        requires
            self.ordered(),
            self.balanced(m),
            3 <= m,
        ensures
            self.separated(),
        decreases self,
    {
        if !self.is_leaf {
            assert forall|a: int, b: int| 0 <= a < b < self.keys.len() implies self.keys@[a] < self.keys@[b] by {
                let c = self.children@[a + 1];
                self.lemma_child_decreases(a + 1);
                c.lemma_nonempty(m);
                let x = choose|x: u32| c@.contains(x);
                assert(self.routes_to(a + 1, x));
                assert(self.keys@[a + 1] <= self.keys@[b]);
            }
            assert forall|i: int|
                #![trigger self.children@[i]]
                0 <= i < self.children.len() implies self.children@[i].separated() by {
                self.lemma_child_decreases(i);
                self.children@[i].lemma_separated(m);
            }
            assert(strictly_sorted(self.keys@));
        }
    }

    proof fn lemma_child_decreases(self, i: int)
        requires
            0 <= i < self.children.len(),
        ensures
            decreases_to!(self => self.children@[i]),
    {
        assert(decreases_to!(self => self.children));
        assert(decreases_to!(self.children => self.children@));
        assert(decreases_to!(self.children@ => self.children@[i]));
    }

    proof fn lemma_view_in_all_keys(self)
        ensures
            self@.subset_of(self.all_keys()),
        decreases self,
    {
        if !self.is_leaf {
            assert forall|x: u32| self@.contains(x) implies self.all_keys().contains(x) by {
                let i = choose|i: int|
                    #![trigger self.children@[i]]
                    0 <= i < self.children.len() && self.children@[i].view().contains(x);
                self.lemma_child_decreases(i);
                self.children@[i].lemma_view_in_all_keys();
            }
        }
    }

    /// In an ordered internal node a key is stored below it exactly when it
    /// is stored below the child whose range holds it.
    proof fn lemma_route(self, i: int, x: u32)
        requires
            self.ordered(),
            !self.is_leaf,
            0 <= i < self.children.len(),
            self.routes_to(i, x),
        ensures
            self@.contains(x) <==> self.children@[i]@.contains(x),
    {
        if self@.contains(x) {
            let j = choose|j: int|
                #![trigger self.children@[j]]
                0 <= j < self.children.len() && self.children@[j].view().contains(x);
            assert(self.routes_to(j, x));
            if j < i {
                assert(self.keys@[j] <= self.keys@[i - 1]);
            }
            if j > i {
                assert(self.keys@[i] <= self.keys@[j - 1]);
            }
        }
    }

    proof fn lemma_leaf_all_keys(self)
        requires
            self.is_leaf,
            self.children.len() == 0,
        ensures
            self.all_keys() == self@,
            self@ == self.keys@.to_set(),
    {
        assert(self.all_keys() =~= self@);
    }

    /// Splits this node, which holds at least `b + 1` keys, in two: this node
    /// keeps its first `b` keys, and the rest goes to the returned right
    /// sibling. A leaf copies its key at position `b` out as the separator and
    /// keeps it on the right; an internal node moves it out.
    #[verifier::rlimit(40)]
    fn split_half(&mut self, b: usize, max_degree: Ghost<nat>) -> (res: (u32, Node))
        requires
            old(self).ordered(),
            old(self).balanced(max_degree@),
            1 <= b < old(self).keys.len(),
        ensures
            ({
                let (sep, right) = res;
                &&& final(self).is_leaf == old(self).is_leaf
                &&& right.is_leaf == old(self).is_leaf
                &&& final(self).ordered()
                &&& right.ordered()
                &&& final(self).balanced(max_degree@)
                &&& right.balanced(max_degree@)
                &&& final(self).height() == old(self).height()
                &&& right.height() == old(self).height()
                &&& final(self).keys.len() == b
                &&& right.keys.len() + b + (if old(self).is_leaf { 0int } else { 1int })
                    == old(self).keys.len()
                &&& final(self)@.union(right@) == old(self)@
                &&& final(self).all_keys().union(right.all_keys()).insert(sep)
                    == old(self).all_keys()
                &&& forall|x: u32| final(self).all_keys().contains(x) ==> x <= sep
                &&& forall|x: u32| final(self)@.contains(x) ==> x < sep
                &&& forall|x: u32| right.all_keys().contains(x) ==> sep <= x
                &&& sep == old(self).keys@[b as int]
                &&& final(self).keys@ == old(self).keys@.subrange(0, b as int)
                &&& right.keys@ == if old(self).is_leaf {
                    old(self).keys@.subrange(b as int, old(self).keys.len() as int)
                } else {
                    old(self).keys@.subrange(b + 1, old(self).keys.len() as int)
                }
                &&& final(self).values@ == if old(self).is_leaf {
                    old(self).values@.subrange(0, b as int)
                } else {
                    old(self).values@
                }
                &&& right.values@ == if old(self).is_leaf {
                    old(self).values@.subrange(b as int, old(self).values.len() as int)
                } else {
                    Seq::empty()
                }
                &&& final(self).children@ == if old(self).is_leaf {
                    old(self).children@
                } else {
                    old(self).children@.subrange(0, b + 1)
                }
                &&& right.children@ == if old(self).is_leaf {
                    Seq::empty()
                } else {
                    old(self).children@.subrange(b + 1, old(self).children.len() as int)
                }
            }),
    {
        let ghost o = *self;
        let ghost k = o.keys@;
        let ghost c = o.children@;
        if self.is_leaf {
            let right_keys = self.keys.split_off(b);
            let right_values = self.values.split_off(b);
            let sep = right_keys[0];
            let right = Node { keys: right_keys, values: right_values, children: Vec::new(), is_leaf: true };
            proof {
                o.lemma_leaf_all_keys();
                self.lemma_leaf_all_keys();
                right.lemma_leaf_all_keys();
                assert forall|x: u32| #[trigger] o@.contains(x) implies self@.contains(x) || right@.contains(x) by {
                    let j = choose|j: int| 0 <= j < k.len() && k[j] == x;
                    if j < b {
                        assert(self.keys@[j] == x);
                    } else {
                        assert(right.keys@[j - b] == x);
                    }
                }
                assert forall|x: u32| #[trigger] right@.contains(x) implies o@.contains(x) && sep <= x by {
                    let j = choose|j: int| 0 <= j < right.keys.len() && right.keys@[j] == x;
                    assert(k[j + b] == x);
                }
                assert forall|x: u32| #[trigger] self@.contains(x) implies o@.contains(x) && x < sep by {
                    let j = choose|j: int| 0 <= j < self.keys.len() && self.keys@[j] == x;
                    assert(k[j] == x);
                }
                assert(self@.union(right@) =~= o@);
                assert(self.all_keys().union(right.all_keys()).insert(sep) =~= o.all_keys());
            }
            (sep, right)
        } else {
            let mut right_keys = self.keys.split_off(b);
            let sep = right_keys.remove(0);
            let right_children = self.children.split_off(b + 1);
            let right = Node {
                keys: right_keys,
                values: Vec::new(),
                children: right_children,
                is_leaf: false,
            };
            proof {
                let l = *self;
                assert forall|j: int| 0 <= j < l.children.len() implies #[trigger] l.children@[j] == c[j] by {}
                assert forall|j: int| 0 <= j < right.children.len() implies #[trigger] right.children@[j] == c[j + b + 1] by {}
                assert forall|x: u32| #[trigger] o@.contains(x) implies l@.contains(x) || right@.contains(x) by {
                    let j = choose|j: int| #![trigger c[j]] 0 <= j < c.len() && c[j]@.contains(x);
                    if j <= b {
                        assert(l.children@[j]@.contains(x));
                    } else {
                        assert(right.children@[j - b - 1]@.contains(x));
                    }
                }
                assert forall|x: u32| #[trigger] l@.contains(x) implies o@.contains(x) && x < sep by {
                    let j = choose|j: int| #![trigger l.children@[j]] 0 <= j < l.children.len() && l.children@[j]@.contains(x);
                    assert(c[j]@.contains(x));
                    assert(o.routes_to(j, x));
                    if j < b {
                        assert(k[j] <= k[b as int]);
                    }
                }
                assert forall|x: u32| #[trigger] right@.contains(x) implies o@.contains(x) by {
                    let j = choose|j: int| #![trigger right.children@[j]] 0 <= j < right.children.len() && right.children@[j]@.contains(x);
                    assert(c[j + b + 1]@.contains(x));
                }
                assert forall|x: u32| #[trigger] o.all_keys().contains(x) && x != sep implies l.all_keys().contains(x) || right.all_keys().contains(x) by {
                    if k.contains(x) {
                        let j = choose|j: int| 0 <= j < k.len() && k[j] == x;
                        if j < b {
                            assert(l.keys@[j] == x);
                        } else {
                            assert(j != b);
                            assert(right.keys@[j - b - 1] == x);
                        }
                    } else {
                        let j = choose|j: int| #![trigger c[j]] 0 <= j < c.len() && c[j].all_keys().contains(x);
                        if j <= b {
                            assert(l.children@[j].all_keys().contains(x));
                        } else {
                            assert(right.children@[j - b - 1].all_keys().contains(x));
                        }
                    }
                }
                assert forall|x: u32| #[trigger] l.all_keys().contains(x) implies o.all_keys().contains(x) && x <= sep by {
                    if l.keys@.contains(x) {
                        let j = choose|j: int| 0 <= j < l.keys.len() && l.keys@[j] == x;
                        assert(k[j] == x);
                    } else {
                        let j = choose|j: int| #![trigger l.children@[j]] 0 <= j < l.children.len() && l.children@[j].all_keys().contains(x);
                        assert(c[j].all_keys().contains(x));
                        assert(o.bounded_by(j, x));
                        if j < b {
                            assert(k[j] <= k[b as int]);
                        }
                    }
                }
                assert forall|x: u32| #[trigger] right.all_keys().contains(x) implies o.all_keys().contains(x) && sep <= x by {
                    if right.keys@.contains(x) {
                        let j = choose|j: int| 0 <= j < right.keys.len() && right.keys@[j] == x;
                        assert(k[j + b + 1] == x);
                    } else {
                        let j = choose|j: int| #![trigger right.children@[j]] 0 <= j < right.children.len() && right.children@[j].all_keys().contains(x);
                        assert(c[j + b + 1].all_keys().contains(x));
                        assert(o.bounded_by(j + b + 1, x));
                        assert(k[b as int] <= k[j + b]);
                    }
                }
                assert(k.contains(sep)) by { assert(k[b as int] == sep); }
                assert(l@.union(right@) =~= o@);
                assert(l.all_keys().union(right.all_keys()).insert(sep) =~= o.all_keys());
                assert(l.ordered()) by {
                    assert forall|j: int, x: u32| 0 <= j < l.children.len() && #[trigger] l.children@[j].all_keys().contains(x) implies l.bounded_by(j, x) by {
                        assert(o.bounded_by(j, x));
                    }
                    assert forall|j: int, x: u32| 0 <= j < l.children.len() && #[trigger] l.children@[j]@.contains(x) implies l.routes_to(j, x) by {
                        assert(o.routes_to(j, x));
                    }
                }
                assert(right.ordered()) by {
                    assert forall|j: int, x: u32| 0 <= j < right.children.len() && #[trigger] right.children@[j].all_keys().contains(x) implies right.bounded_by(j, x) by {
                        assert(o.bounded_by(j + b + 1, x));
                    }
                    assert forall|j: int, x: u32| 0 <= j < right.children.len() && #[trigger] right.children@[j]@.contains(x) implies right.routes_to(j, x) by {
                        assert(o.routes_to(j + b + 1, x));
                    }
                }
                assert(c[0].height() + 1 == o.height());
                assert(c[b + 1].height() + 1 == o.height());
            }
            (sep, right)
        }
    }

    /// Child `i` of an internal node.
    pub closed spec fn child(self, i: int) -> Node {
        self.children@[i]
    }

    /// The keys of this node, in order.
    pub closed spec fn key_seq(self) -> Seq<u32> {
        self.keys@
    }

    /// The values of a leaf, parallel to its keys; empty for an internal node.
    pub closed spec fn value_seq(self) -> Seq<u32> {
        self.values@
    }

    /// The children of an internal node, in order; empty for a leaf.
    pub closed spec fn child_seq(self) -> Seq<Node> {
        self.children@
    }

    /// Child `i` is balanced, one level below this node, and holds between
    /// `min_keys(m)` and `m - 1` keys.
    pub closed spec fn child_fits(self, i: int, m: nat) -> bool {
        &&& self.children@[i].balanced(m)
        &&& self.children@[i].height() + 1 == self.height()
        &&& min_keys(m) <= self.children@[i].keys.len() < m
    }

    proof fn lemma_fits_balanced(self, m: nat)
        requires
            !self.is_leaf,
            forall|j: int| 0 <= j < self.children.len() ==> #[trigger] self.child_fits(j, m),
        ensures
            self.balanced(m),
    {
        assert forall|j: int| 0 <= j < self.children.len() implies {
            &&& self.children@[j].balanced(m)
            &&& self.children@[j].height() + 1 == self.height()
            &&& min_keys(m) <= self.children@[j].keys.len() < m
        } by {
            assert(self.child_fits(j, m));
        }
    }

    /// Splits child `index`, which has just reached `max_degree` keys, into
    /// two children and adds the separator between them to this node's keys.
    /// The stored keys do not change.
    pub fn split_child(&mut self, index: usize, max_degree: usize)
        requires
            old(self).ordered(),
            !old(self).leaf(),
            3 <= max_degree,
            index < old(self).key_count() + 1,
            old(self).child(index as int).balanced(max_degree as nat),
            old(self).child(index as int).height() + 1 == old(self).height(),
            old(self).child(index as int).key_count() == max_degree,
            forall|j: int|
                0 <= j <= old(self).key_count() && j != index ==> #[trigger] old(self).child_fits(
                    j,
                    max_degree as nat,
                ),
        ensures
            final(self).ordered(),
            final(self).balanced(max_degree as nat),
            !final(self).leaf(),
            final(self).height() == old(self).height(),
            final(self).key_count() == old(self).key_count() + 1,
            final(self)@ == old(self)@,
            final(self).all_keys() == old(self).all_keys(),
            ({
                let c = old(self).child(index as int);
                let b = max_degree / 2;
                let l = final(self).child(index as int);
                let r = final(self).child(index + 1);
                &&& final(self).key_seq() == old(self).key_seq().insert(index as int, c.key_seq()[b as int])
                &&& final(self).child_seq().len() == old(self).child_seq().len() + 1
                &&& forall|j: int| 0 <= j < index ==> #[trigger] final(self).child(j) == old(self).child(j)
                &&& forall|j: int|
                    index < j < old(self).child_seq().len() ==> #[trigger] final(self).child(j + 1)
                        == old(self).child(j)
                &&& l.leaf() == c.leaf()
                &&& r.leaf() == c.leaf()
                &&& l.key_seq() == c.key_seq().subrange(0, b as int)
                &&& c.leaf() ==> {
                    &&& r.key_seq() == c.key_seq().subrange(b as int, max_degree as int)
                    &&& l.value_seq() == c.value_seq().subrange(0, b as int)
                    &&& r.value_seq() == c.value_seq().subrange(b as int, max_degree as int)
                }
                &&& !c.leaf() ==> {
                    &&& r.key_seq() == c.key_seq().subrange(b + 1, max_degree as int)
                    &&& l.child_seq() == c.child_seq().subrange(0, b + 1)
                    &&& r.child_seq() == c.child_seq().subrange(b + 1, max_degree + 1)
                    &&& r.value_seq().len() == 0
                }
            }),
    {
        let ghost o = *self;
        let ghost m = max_degree as nat;
        let ghost k = o.keys@;
        let ghost c = o.children@;
        let ghost i = index as int;
        let mut child = self.children.remove(index);
        let ghost oc = child;
        let (sep, right) = child.split_half(max_degree / 2, Ghost(m));
        self.keys.insert(index, sep);
        self.children.insert(index, child);
        self.children.insert(index + 1, right);
        proof {
            let n = *self;
            assert(min_keys(m) <= max_degree / 2 < m);
            assert(min_keys(m) <= max_degree - max_degree / 2 - 1);
            assert(n.child_fits(i, m));
            assert(n.child_fits(i + 1, m));
            assert forall|j: int| 0 <= j < i implies #[trigger] n.children@[j] == c[j] by {}
            assert forall|j: int| 0 <= j < i implies #[trigger] n.keys@[j] == k[j] by {}
            assert forall|j: int| i + 1 < j < n.children.len() implies #[trigger] n.children@[j] == c[j - 1] by {}
            assert forall|j: int| i < j < n.keys.len() implies #[trigger] n.keys@[j] == k[j - 1] by {}
            assert(n.keys@ =~= k.insert(i, sep));
            assert forall|j: int| 0 <= j < index implies #[trigger] n.child(j) == o.child(j) by {}
            assert forall|j: int| index < j < c.len() implies #[trigger] n.child(j + 1) == o.child(j) by {}
            assert(c[i].ordered());
            assert(oc == c[i]);
            assert(oc.is_leaf ==> oc.values@ == oc.keys@);
            assert(oc.keys.len() == max_degree);
            assert(!oc.is_leaf ==> oc.children.len() == max_degree + 1);
            assert(n.child(i) == child);
            assert(n.child(i + 1) == right);
            lemma_split_ordered(o, n, i, child, right, sep);
            lemma_split_contents(o, n, i, child, right, sep);
            if i == 0 {
                assert(n.children@[0] == child);
            } else {
                assert(n.children@[0] == c[0]);
            }
            assert(n.height() == o.height());
            assert forall|j: int| 0 <= j < n.children.len() implies #[trigger] n.child_fits(j, m) by {
                if j > i + 1 {
                    assert(o.child_fits(j - 1, m));
                } else if j < i {
                    assert(o.child_fits(j, m));
                }
            }
            n.lemma_fits_balanced(m);
        }
    }

    /// Adds `key` below this node, which holds fewer than `max_degree` keys.
    /// A leaf takes it in sorted position unless it is already there; an
    /// internal node passes it to the child whose range holds it, and splits
    /// that child if it has reached `max_degree` keys.
    pub fn insert_non_full(&mut self, key: u32, max_degree: usize)
        requires
            old(self).ordered(),
            old(self).balanced(max_degree as nat),
            3 <= max_degree,
            old(self).key_count() < max_degree,
        ensures
            final(self).ordered(),
            final(self).balanced(max_degree as nat),
            final(self).leaf() == old(self).leaf(),
            final(self).height() == old(self).height(),
            final(self)@ == old(self)@.insert(key),
            final(self).all_keys().subset_of(old(self).all_keys().insert(key)),
            old(self).key_count() <= final(self).key_count() <= old(self).key_count() + 1,
            old(self)@.contains(key) ==> *final(self) == *old(self),
    {
        proof {
            self.lemma_separated(max_degree as nat);
        }
        if self.search(&key).is_some() {
            proof {
                assert(old(self)@.insert(key) =~= old(self)@);
            }
            return;
        }
        self.insert_absent(key, max_degree);
    }

    /// Adds `key`, which is not stored below this node, as `insert_non_full`
    /// describes.
    fn insert_absent(&mut self, key: u32, max_degree: usize)
        requires
            old(self).ordered(),
            old(self).balanced(max_degree as nat),
            3 <= max_degree,
            old(self).key_count() < max_degree,
            !old(self)@.contains(key),
        ensures
            final(self).ordered(),
            final(self).balanced(max_degree as nat),
            final(self).leaf() == old(self).leaf(),
            final(self).height() == old(self).height(),
            final(self)@ == old(self)@.insert(key),
            final(self).all_keys().subset_of(old(self).all_keys().insert(key)),
            old(self).key_count() <= final(self).key_count() <= old(self).key_count() + 1,
        decreases *old(self),
    {
        let ghost o = *self;
        let ghost m = max_degree as nat;
        let i = upper_bound(&self.keys, key);
        if self.is_leaf {
            if i > 0 && self.keys[i - 1] == key {
                proof {
                    o.lemma_leaf_all_keys();
                    assert(o.keys@.contains(key));
                    assert(o@.insert(key) =~= o@);
                }
            } else {
                self.keys.insert(i, key);
                self.values.insert(i, key);
                proof {
                    let k = o.keys@;
                    let n = *self;
                    o.lemma_leaf_all_keys();
                    n.lemma_leaf_all_keys();
                    assert forall|j: int| 0 <= j < i implies k[j] < key by {
                        assert(k[j] <= k[i - 1]);
                    }
                    assert(strictly_sorted(n.keys@)) by {
                        assert forall|a: int, b: int| 0 <= a < b < n.keys.len() implies n.keys@[a] < n.keys@[b] by {
                            if b < i {
                                assert(n.keys@[a] == k[a] && n.keys@[b] == k[b]);
                            } else if a > i {
                                assert(n.keys@[a] == k[a - 1] && n.keys@[b] == k[b - 1]);
                            } else if a < i {
                                assert(n.keys@[a] == k[a]);
                                if b > i {
                                    assert(n.keys@[b] == k[b - 1]);
                                }
                            } else {
                                assert(n.keys@[b] == k[b - 1]);
                            }
                        }
                    }
                    assert forall|x: u32| #[trigger] n.keys@.contains(x) <==> k.contains(x) || x == key by {
                        if n.keys@.contains(x) {
                            let j = choose|j: int| 0 <= j < n.keys.len() && n.keys@[j] == x;
                            if j < i {
                                assert(k[j] == x);
                            } else if j > i {
                                assert(k[j - 1] == x);
                            }
                        }
                        if k.contains(x) {
                            let j = choose|j: int| 0 <= j < k.len() && k[j] == x;
                            if j < i {
                                assert(n.keys@[j] == x);
                            } else {
                                assert(n.keys@[j + 1] == x);
                            }
                        }
                        if x == key {
                            assert(n.keys@[i as int] == x);
                        }
                    }
                    assert(n@ =~= o@.insert(key));
                }
            }
        } else {
            proof {
                o.lemma_route(i as int, key);
                assert(o.child_fits(i as int, m));
                o.lemma_child_decreases(i as int);
            }
            self.children[i].insert_absent(key, max_degree);
            proof {
                let n = *self;
                let oc = o.children@[i as int];
                let nc = n.children@[i as int];
                assert(n.children@ =~= o.children@.update(i as int, nc));
                assert forall|x: u32| nc.all_keys().contains(x) implies o.bounded_by(i as int, x) by {
                    if x != key {
                        assert(oc.all_keys().contains(x));
                    }
                }
                assert forall|x: u32| nc@.contains(x) implies o.routes_to(i as int, x) by {
                    if x != key {
                        assert(oc@.contains(x));
                        oc.lemma_view_in_all_keys();
                    }
                }
                lemma_replace_child(o, n, i as int);
                assert forall|x: u32| #[trigger] n@.contains(x) <==> o@.insert(key).contains(x) by {
                    if o.routes_to(i as int, x) {
                        o.lemma_route(i as int, x);
                    }
                }
                assert(n@ =~= o@.insert(key));
                assert(n.all_keys().subset_of(o.all_keys().insert(key))) by {
                    assert forall|x: u32| nc.all_keys().contains(x) implies o.all_keys().insert(key).contains(x) by {
                        if x != key {
                            assert(oc.all_keys().contains(x));
                            assert(o.all_keys().contains(x));
                        }
                    }
                }
                assert forall|j: int| 0 <= j < n.children.len() && j != i implies #[trigger] n.child_fits(j, m) by {
                    assert(n.children@[j] == o.children@[j]);
                    assert(o.child_fits(j, m));
                }
                if i == 0 {
                    assert(n.height() == o.height());
                } else {
                    assert(n.children@[0] == o.children@[0]);
                }
            }
            if self.children[i].keys.len() == max_degree {
                self.split_child(i, max_degree);
            } else {
                proof {
                    assert((*self).child_fits(i as int, m));
                    (*self).lemma_fits_balanced(m);
                }
            }
        }
    }

    /// Child `i` has one key fewer than `min_keys(m)`; every other child fits.
    spec fn underflow_at(self, i: int, m: nat) -> bool {
        &&& !self.is_leaf
        &&& 0 <= i < self.children.len()
        &&& 2 <= self.children.len()
        &&& self.children@[i].balanced(m)
        &&& self.children@[i].height() + 1 == self.height()
        &&& self.children@[i].keys.len() + 1 == min_keys(m)
        &&& forall|j: int| 0 <= j < self.children.len() && j != i ==> #[trigger] self.child_fits(j, m)
    }

    proof fn lemma_leaf_iff_height(self)
        requires
            self.ordered(),
        ensures
            self.is_leaf <==> self.height() == 0,
    {
    }

    /// After a borrow or a merge around the short child `i` of `o`, every
    /// child of this node fits: it is either an untouched child other than
    /// `i`, or a rebuilt one that fits on its own.
    proof fn lemma_borrow_balanced(self, o: Node, i: int, m: nat)
        requires
            !self.is_leaf,
            o.underflow_at(i, m),
            1 <= self.children.len(),
            forall|a: int|
                #![trigger self.children@[a]]
                0 <= a < self.children.len() ==> (a != i && a < o.children.len()
                    && self.children@[a] == o.children@[a]) || {
                    &&& self.children@[a].balanced(m)
                    &&& self.children@[a].height() + 1 == o.height()
                    &&& min_keys(m) <= self.children@[a].keys.len() < m
                },
        ensures
            self.balanced(m),
            self.height() == o.height(),
    {
        if self.children@[0] == o.children@[0] && 0 != i {
            assert(o.child_fits(0, m));
        }
        assert(self.height() == o.height());
        assert forall|a: int| 0 <= a < self.children.len() implies #[trigger] self.child_fits(a, m) by {
            if a != i && a < o.children.len() && self.children@[a] == o.children@[a] {
                assert(o.child_fits(a, m));
            }
        }
        self.lemma_fits_balanced(m);
    }

    /// Child `i` is short of keys and its left sibling can spare one: the
    /// sibling's last entry moves over, through the separator between them.
    fn borrow_from_left(&mut self, i: usize, max_degree: usize)
        requires
            old(self).ordered(),
            3 <= max_degree,
            old(self).underflow_at(i as int, max_degree as nat),
            0 < i,
            old(self).children@[i - 1].keys.len() > min_keys(max_degree as nat),
        ensures
            final(self).ordered(),
            final(self).balanced(max_degree as nat),
            !final(self).is_leaf,
            final(self).height() == old(self).height(),
            final(self).keys.len() == old(self).keys.len(),
            final(self)@ == old(self)@,
            final(self).all_keys().subset_of(old(self).all_keys()),
            final(self).children.len() == old(self).children.len(),
            forall|j: int|
                0 <= j < old(self).children.len() && j != i - 1 && j != i
                    ==> #[trigger] final(self).children@[j] == old(self).children@[j],
            final(self).keys@ == old(self).keys@.update(i - 1, old(self).children@[i - 1].keys@.last()),
            final(self).children@[i - 1].is_leaf == old(self).children@[i - 1].is_leaf,
            final(self).children@[i as int].is_leaf == old(self).children@[i as int].is_leaf,
            final(self).children@[i - 1].keys@ == old(self).children@[i - 1].keys@.drop_last(),
            old(self).children@[i as int].is_leaf ==> {
                &&& final(self).children@[i as int].keys@ == old(self).children@[i as int].keys@.insert(
                    0,
                    old(self).children@[i - 1].keys@.last(),
                )
                &&& final(self).children@[i as int].values@
                    == old(self).children@[i as int].values@.insert(
                    0,
                    old(self).children@[i - 1].values@.last(),
                )
                &&& final(self).children@[i - 1].values@ == old(self).children@[i
                    - 1].values@.drop_last()
            },
            !old(self).children@[i as int].is_leaf ==> {
                &&& final(self).children@[i as int].keys@ == old(self).children@[i as int].keys@.insert(
                    0,
                    old(self).keys@[i - 1],
                )
                &&& final(self).children@[i as int].children@
                    == old(self).children@[i as int].children@.insert(
                    0,
                    old(self).children@[i - 1].children@.last(),
                )
                &&& final(self).children@[i - 1].children@ == old(self).children@[i
                    - 1].children@.drop_last()
            },
    {
        let ghost o = *self;
        let ghost m = max_degree as nat;
        let ghost ol = o.children@[i - 1];
        let ghost oc = o.children@[i as int];
        proof {
            assert(o.child_fits(i - 1, m));
            assert(ol.ordered());
            assert(oc.ordered());
            ol.lemma_leaf_iff_height();
            oc.lemma_leaf_iff_height();
        }
        let sep = self.keys[i - 1];
        if self.children[i].is_leaf {
            let moved = self.children[i - 1].keys.pop().unwrap();
            let moved_value = self.children[i - 1].values.pop().unwrap();
            self.children[i].keys.insert(0, moved);
            self.children[i].values.insert(0, moved_value);
            self.keys.set(i - 1, moved);
            proof {
                let n = *self;
                let nl = n.children@[i - 1];
                let nc = n.children@[i as int];
                ol.lemma_leaf_all_keys();
                oc.lemma_leaf_all_keys();
                nl.lemma_leaf_all_keys();
                nc.lemma_leaf_all_keys();
                let lk = ol.keys@;
                let ck = oc.keys@;
                assert(lk.contains(moved)) by { assert(lk[lk.len() - 1] == moved); }
                assert(ol@.contains(moved));
                assert(o.routes_to(i - 1, moved));
                assert(o.bounded_by(i - 1, moved));
                assert forall|x: u32| #[trigger] ck.contains(x) implies sep <= x by {
                    assert(oc.all_keys().contains(x));
                    assert(o.bounded_by(i as int, x));
                }
                assert(strictly_sorted(nc.keys@)) by {
                    assert forall|a: int, b: int| 0 <= a < b < nc.keys.len() implies nc.keys@[a] < nc.keys@[b] by {
                        assert(nc.keys@[b] == ck[b - 1]);
                        assert(ck.contains(ck[b - 1]));
                        if a > 0 {
                            assert(nc.keys@[a] == ck[a - 1]);
                        }
                    }
                }
                assert forall|x: u32| #[trigger] nl.keys@.contains(x) implies lk.contains(x) && x < moved by {
                    let a = choose|a: int| 0 <= a < nl.keys.len() && nl.keys@[a] == x;
                    assert(lk[a] == x);
                }
                assert forall|x: u32| #[trigger] nc.keys@.contains(x) implies x == moved || ck.contains(x) by {
                    let a = choose|a: int| 0 <= a < nc.keys.len() && nc.keys@[a] == x;
                    if a > 0 {
                        assert(ck[a - 1] == x);
                    }
                }
                assert forall|x: u32| #[trigger] lk.contains(x) implies nl.keys@.contains(x) || x == moved by {
                    let a = choose|a: int| 0 <= a < lk.len() && lk[a] == x;
                    if a < lk.len() - 1 {
                        assert(nl.keys@[a] == x);
                    }
                }
                assert forall|x: u32| #[trigger] ck.contains(x) implies nc.keys@.contains(x) by {
                    let a = choose|a: int| 0 <= a < ck.len() && ck[a] == x;
                    assert(nc.keys@[a + 1] == x);
                }
                assert(nc.keys@[0] == moved);
                assert(nc.keys@.contains(moved));
                assert(nl@.union(nc@) =~= ol@.union(oc@));
                assert forall|x: u32| #[trigger] nc.all_keys().contains(x) implies n.bounded_by(i as int, x) by {
                    assert(nc.keys@.contains(x));
                    if x != moved {
                        assert(ck.contains(x));
                        assert(oc.all_keys().contains(x));
                        assert(o.bounded_by(i as int, x));
                    } else if i < o.keys.len() {
                        assert(o.keys@[i - 1] <= o.keys@[i as int]);
                    }
                }
                assert forall|x: u32| #[trigger] nc@.contains(x) implies n.routes_to(i as int, x) by {
                    assert(nc.keys@.contains(x));
                    if x != moved {
                        assert(ck.contains(x));
                        assert(oc@.contains(x));
                        assert(o.routes_to(i as int, x));
                    } else if i < o.keys.len() {
                        assert(o.keys@[i - 1] <= o.keys@[i as int]);
                    }
                }
                assert forall|x: u32| #[trigger] nl.all_keys().contains(x) implies n.bounded_by(i - 1, x) by {
                    assert(nl.keys@.contains(x));
                    assert(lk.contains(x));
                    assert(ol.all_keys().contains(x));
                    assert(o.bounded_by(i - 1, x));
                }
                assert(sorted(n.keys@)) by {
                    assert forall|a: int, b: int| 0 <= a < b < n.keys.len() implies n.keys@[a] <= n.keys@[b] by {
                        if a == i - 1 {
                            assert(o.keys@[i - 1] <= o.keys@[b]);
                        } else if b == i - 1 {
                            assert(o.keys@[a] <= o.keys@[i - 2]);
                        }
                    }
                }
                lemma_pair_replaced(o, n, i - 1);
                self.lemma_borrow_balanced(o, i as int, m);
            }
        } else {
            let moved = self.children[i - 1].keys.pop().unwrap();
            let grandchild = self.children[i - 1].children.pop().unwrap();
            self.children[i].keys.insert(0, sep);
            self.children[i].children.insert(0, grandchild);
            self.keys.set(i - 1, moved);
            proof {
                let n = *self;
                let nl = n.children@[i - 1];
                let nc = n.children@[i as int];
                let g = ol.children@.last();
                assert(nl.keys@ =~= ol.keys@.drop_last());
                assert(nl.children@ =~= ol.children@.drop_last());
                lemma_drop_last(ol, nl, m);
                assert forall|x: u32| g.all_keys().contains(x) implies x <= sep by {
                    assert(ol.all_keys().contains(x));
                    assert(o.bounded_by(i - 1, x));
                }
                assert forall|x: u32| g@.contains(x) implies x < sep by {
                    assert(ol@.contains(x));
                    assert(o.routes_to(i - 1, x));
                }
                assert forall|x: u32| oc.all_keys().contains(x) implies sep <= x by {
                    assert(o.bounded_by(i as int, x));
                }
                lemma_push_front(oc, nc, sep, g, m);
                assert(ol.all_keys().contains(moved));
                assert(o.bounded_by(i - 1, moved));
                assert forall|x: u32| #[trigger] nl.all_keys().contains(x) implies n.bounded_by(i - 1, x) by {
                    assert(ol.all_keys().contains(x));
                    assert(o.bounded_by(i - 1, x));
                }
                assert forall|x: u32| #[trigger] nl@.contains(x) implies n.routes_to(i - 1, x) by {
                    assert(ol@.contains(x));
                    assert(o.routes_to(i - 1, x));
                }
                assert forall|x: u32| #[trigger] nc.all_keys().contains(x) implies n.bounded_by(i as int, x) by {
                    if oc.all_keys().contains(x) {
                        assert(o.bounded_by(i as int, x));
                    } else if g.all_keys().contains(x) {
                        if i < o.keys.len() {
                            assert(o.keys@[i - 1] <= o.keys@[i as int]);
                        }
                    } else {
                        if i < o.keys.len() {
                            assert(o.keys@[i - 1] <= o.keys@[i as int]);
                        }
                    }
                }
                assert forall|x: u32| #[trigger] nc@.contains(x) implies n.routes_to(i as int, x) by {
                    if oc@.contains(x) {
                        assert(o.routes_to(i as int, x));
                        oc.lemma_view_in_all_keys();
                    } else {
                        g.lemma_view_in_all_keys();
                        if i < o.keys.len() {
                            assert(o.keys@[i - 1] <= o.keys@[i as int]);
                        }
                    }
                }
                assert(sorted(n.keys@)) by {
                    assert forall|a: int, b: int| 0 <= a < b < n.keys.len() implies n.keys@[a] <= n.keys@[b] by {
                        if a == i - 1 {
                            assert(o.keys@[i - 1] <= o.keys@[b]);
                        } else if b == i - 1 {
                            assert(o.keys@[a] <= o.keys@[i - 2]);
                        }
                    }
                }
                assert(nl@.union(nc@) =~= ol@.union(oc@));
                lemma_pair_replaced(o, n, i - 1);
                self.lemma_borrow_balanced(o, i as int, m);
            }
        }
    }

    /// Child `i` is short of keys and its right sibling can spare one: the
    /// sibling's first entry moves over, through the separator between them.
    fn borrow_from_right(&mut self, i: usize, max_degree: usize)
        requires
            old(self).ordered(),
            3 <= max_degree,
            old(self).underflow_at(i as int, max_degree as nat),
            i + 1 < old(self).children.len(),
            old(self).children@[i + 1].keys.len() > min_keys(max_degree as nat),
        ensures
            final(self).ordered(),
            final(self).balanced(max_degree as nat),
            !final(self).is_leaf,
            final(self).height() == old(self).height(),
            final(self).keys.len() == old(self).keys.len(),
            final(self)@ == old(self)@,
            final(self).all_keys().subset_of(old(self).all_keys()),
            final(self).children.len() == old(self).children.len(),
            forall|j: int|
                0 <= j < old(self).children.len() && j != i && j != i + 1
                    ==> #[trigger] final(self).children@[j] == old(self).children@[j],
            final(self).children@[i as int].is_leaf == old(self).children@[i as int].is_leaf,
            final(self).children@[i + 1].is_leaf == old(self).children@[i + 1].is_leaf,
            final(self).children@[i + 1].keys@ == old(self).children@[i + 1].keys@.subrange(
                1,
                old(self).children@[i + 1].keys.len() as int,
            ),
            old(self).children@[i as int].is_leaf ==> {
                &&& final(self).keys@ == old(self).keys@.update(
                    i as int,
                    old(self).children@[i + 1].keys@[1],
                )
                &&& final(self).children@[i as int].keys@ == old(self).children@[i as int].keys@.push(
                    old(self).children@[i + 1].keys@[0],
                )
                &&& final(self).children@[i as int].values@
                    == old(self).children@[i as int].values@.push(
                    old(self).children@[i + 1].values@[0],
                )
                &&& final(self).children@[i + 1].values@ == old(self).children@[i
                    + 1].values@.subrange(1, old(self).children@[i + 1].values.len() as int)
            },
            !old(self).children@[i as int].is_leaf ==> {
                &&& final(self).keys@ == old(self).keys@.update(
                    i as int,
                    old(self).children@[i + 1].keys@[0],
                )
                &&& final(self).children@[i as int].keys@ == old(self).children@[i as int].keys@.push(
                    old(self).keys@[i as int],
                )
                &&& final(self).children@[i as int].children@
                    == old(self).children@[i as int].children@.push(
                    old(self).children@[i + 1].children@[0],
                )
                &&& final(self).children@[i + 1].children@ == old(self).children@[i
                    + 1].children@.subrange(1, old(self).children@[i + 1].children.len() as int)
            },
    {
        let ghost o = *self;
        let ghost m = max_degree as nat;
        let ghost oc = o.children@[i as int];
        let ghost or = o.children@[i + 1];
        proof {
            assert(o.child_fits(i + 1, m));
            assert(or.ordered());
            assert(oc.ordered());
            or.lemma_leaf_iff_height();
            oc.lemma_leaf_iff_height();
        }
        let sep = self.keys[i];
        if self.children[i].is_leaf {
            let moved = self.children[i + 1].keys.remove(0);
            let moved_value = self.children[i + 1].values.remove(0);
            self.children[i].keys.push(moved);
            self.children[i].values.push(moved_value);
            let new_sep = self.children[i + 1].keys[0];
            self.keys.set(i, new_sep);
            proof {
                let n = *self;
                let nc = n.children@[i as int];
                let nr = n.children@[i + 1];
                oc.lemma_leaf_all_keys();
                or.lemma_leaf_all_keys();
                nc.lemma_leaf_all_keys();
                nr.lemma_leaf_all_keys();
                let ck = oc.keys@;
                let rk = or.keys@;
                assert(rk.contains(moved)) by { assert(rk[0] == moved); }
                assert(rk.contains(new_sep)) by { assert(rk[1] == new_sep); }
                assert(or.all_keys().contains(moved));
                assert(or.all_keys().contains(new_sep));
                assert(o.bounded_by(i + 1, moved));
                assert(o.bounded_by(i + 1, new_sep));
                assert(moved < new_sep);
                assert forall|x: u32| #[trigger] ck.contains(x) implies x < sep && oc@.contains(x) && oc.all_keys().contains(x) by {
                    assert(oc@.contains(x));
                    assert(o.routes_to(i as int, x));
                }
                assert(strictly_sorted(nc.keys@)) by {
                    assert forall|a: int, b: int| 0 <= a < b < nc.keys.len() implies nc.keys@[a] < nc.keys@[b] by {
                        assert(nc.keys@[a] == ck[a]);
                        assert(ck.contains(ck[a]));
                        if b < ck.len() {
                            assert(nc.keys@[b] == ck[b]);
                        }
                    }
                }
                assert forall|x: u32| #[trigger] nr.keys@.contains(x) implies rk.contains(x) && new_sep <= x by {
                    let a = choose|a: int| 0 <= a < nr.keys.len() && nr.keys@[a] == x;
                    assert(rk[a + 1] == x);
                    if a > 0 {
                        assert(rk[1] < rk[a + 1]);
                    }
                }
                assert forall|x: u32| #[trigger] nc.keys@.contains(x) implies x == moved || ck.contains(x) by {
                    let a = choose|a: int| 0 <= a < nc.keys.len() && nc.keys@[a] == x;
                    if a < ck.len() {
                        assert(ck[a] == x);
                    }
                }
                assert forall|x: u32| #[trigger] rk.contains(x) implies nr.keys@.contains(x) || x == moved by {
                    let a = choose|a: int| 0 <= a < rk.len() && rk[a] == x;
                    if a > 0 {
                        assert(nr.keys@[a - 1] == x);
                    }
                }
                assert forall|x: u32| #[trigger] ck.contains(x) implies nc.keys@.contains(x) by {
                    let a = choose|a: int| 0 <= a < ck.len() && ck[a] == x;
                    assert(nc.keys@[a] == x);
                }
                assert(nc.keys@[ck.len() as int] == moved);
                assert(nc.keys@.contains(moved));
                assert(nc@.union(nr@) =~= oc@.union(or@));
                assert forall|x: u32| #[trigger] nc.all_keys().contains(x) implies n.bounded_by(i as int, x) && x < new_sep by {
                    assert(nc.keys@.contains(x));
                    if x != moved {
                        assert(o.bounded_by(i as int, x));
                    } else if i > 0 {
                        assert(o.keys@[i - 1] <= o.keys@[i as int]);
                    }
                }
                assert forall|x: u32| #[trigger] nc@.contains(x) implies n.routes_to(i as int, x) by {
                    assert(nc.all_keys().contains(x));
                }
                assert forall|x: u32| #[trigger] nr.all_keys().contains(x) implies n.bounded_by(i + 1, x) by {
                    assert(nr.keys@.contains(x));
                    assert(or.all_keys().contains(x));
                    assert(o.bounded_by(i + 1, x));
                }
                assert forall|x: u32| #[trigger] nr@.contains(x) implies n.routes_to(i + 1, x) by {
                    assert(nr.keys@.contains(x));
                    assert(or@.contains(x));
                    assert(o.routes_to(i + 1, x));
                }
                assert(sorted(n.keys@)) by {
                    assert forall|a: int, b: int| 0 <= a < b < n.keys.len() implies n.keys@[a] <= n.keys@[b] by {
                        if a == i {
                            assert(n.keys@[b] == o.keys@[b]);
                        } else if b == i {
                            assert(o.keys@[a] <= o.keys@[i as int]);
                        }
                    }
                }
                lemma_pair_replaced(o, n, i as int);
                self.lemma_borrow_balanced(o, i as int, m);
            }
        } else {
            let moved = self.children[i + 1].keys.remove(0);
            let grandchild = self.children[i + 1].children.remove(0);
            self.children[i].keys.push(sep);
            self.children[i].children.push(grandchild);
            self.keys.set(i, moved);
            proof {
                let n = *self;
                let nc = n.children@[i as int];
                let nr = n.children@[i + 1];
                let g = or.children@[0];
                assert(nr.keys@ =~= or.keys@.subrange(1, or.keys.len() as int));
                assert(nr.children@ =~= or.children@.subrange(1, or.children.len() as int));
                lemma_drop_first(or, nr, m);
                assert forall|x: u32| g.all_keys().contains(x) implies sep <= x by {
                    assert(or.all_keys().contains(x));
                    assert(o.bounded_by(i + 1, x));
                }
                assert forall|x: u32| oc.all_keys().contains(x) implies x <= sep by {
                    assert(o.bounded_by(i as int, x));
                }
                assert forall|x: u32| oc@.contains(x) implies x < sep by {
                    assert(o.routes_to(i as int, x));
                }
                lemma_push_back(oc, nc, sep, g, m);
                assert(or.all_keys().contains(moved));
                assert(o.bounded_by(i + 1, moved));
                assert forall|x: u32| #[trigger] nr.all_keys().contains(x) implies n.bounded_by(i + 1, x) by {
                    assert(or.all_keys().contains(x));
                    assert(o.bounded_by(i + 1, x));
                }
                assert forall|x: u32| #[trigger] nr@.contains(x) implies n.routes_to(i + 1, x) by {
                    assert(or@.contains(x));
                    assert(o.routes_to(i + 1, x));
                    nr.lemma_view_in_all_keys();
                }
                assert forall|x: u32| #[trigger] nc.all_keys().contains(x) implies n.bounded_by(i as int, x) by {
                    if oc.all_keys().contains(x) {
                        assert(o.bounded_by(i as int, x));
                    } else if i > 0 {
                        assert(o.keys@[i - 1] <= o.keys@[i as int]);
                    }
                }
                assert forall|x: u32| #[trigger] nc@.contains(x) implies n.routes_to(i as int, x) by {
                    if oc@.contains(x) {
                        assert(o.routes_to(i as int, x));
                    } else {
                        g.lemma_view_in_all_keys();
                        if i > 0 {
                            assert(o.keys@[i - 1] <= o.keys@[i as int]);
                        }
                    }
                }
                assert(sorted(n.keys@)) by {
                    assert forall|a: int, b: int| 0 <= a < b < n.keys.len() implies n.keys@[a] <= n.keys@[b] by {
                        if a == i {
                            assert(n.keys@[b] == o.keys@[b]);
                        } else if b == i {
                            assert(o.keys@[a] <= o.keys@[i as int]);
                        }
                    }
                }
                assert(nc@.union(nr@) =~= oc@.union(or@));
                lemma_pair_replaced(o, n, i as int);
                self.lemma_borrow_balanced(o, i as int, m);
            }
        }
    }

    /// Children `j` and `j + 1`, one of them short of keys and the other at
    /// the minimum, become one child; the separator between them leaves this
    /// node (an internal child takes it in between the two halves).
    fn merge_children(&mut self, j: usize, max_degree: usize, short: Ghost<int>)
        requires
            old(self).ordered(),
            3 <= max_degree,
            old(self).underflow_at(short@, max_degree as nat),
            short@ == j || short@ == j + 1,
            j + 1 < old(self).children.len(),
            old(self).children@[j as int].keys.len() + old(self).children@[j + 1].keys.len() + 1
                == 2 * min_keys(max_degree as nat),
        ensures
            final(self).ordered(),
            final(self).balanced(max_degree as nat),
            !final(self).is_leaf,
            final(self).height() == old(self).height(),
            final(self).keys.len() + 1 == old(self).keys.len(),
            final(self)@ == old(self)@,
            final(self).all_keys().subset_of(old(self).all_keys()),
            final(self).keys@ == old(self).keys@.remove(j as int),
            final(self).children.len() + 1 == old(self).children.len(),
            forall|a: int| 0 <= a < j ==> #[trigger] final(self).children@[a] == old(self).children@[a],
            forall|a: int|
                j < a < final(self).children.len() ==> #[trigger] final(self).children@[a]
                    == old(self).children@[a + 1],
            final(self).children@[j as int].is_leaf == old(self).children@[j as int].is_leaf,
            old(self).children@[j as int].is_leaf ==> {
                &&& final(self).children@[j as int].keys@ == old(self).children@[j as int].keys@
                    + old(self).children@[j + 1].keys@
                &&& final(self).children@[j as int].values@ == old(self).children@[j as int].values@
                    + old(self).children@[j + 1].values@
            },
            !old(self).children@[j as int].is_leaf ==> {
                &&& final(self).children@[j as int].keys@ == old(self).children@[j as int].keys@.push(
                    old(self).keys@[j as int],
                ) + old(self).children@[j + 1].keys@
                &&& final(self).children@[j as int].children@
                    == old(self).children@[j as int].children@ + old(self).children@[j + 1].children@
            },
    {
        let ghost o = *self;
        let ghost m = max_degree as nat;
        let ghost ol = o.children@[j as int];
        let ghost or = o.children@[j + 1];
        proof {
            assert(ol.ordered());
            assert(or.ordered());
            if short@ == j {
                assert(o.child_fits(j + 1, m));
            } else {
                assert(o.child_fits(j as int, m));
            }
            ol.lemma_leaf_iff_height();
            or.lemma_leaf_iff_height();
            assert forall|x: u32| ol.all_keys().contains(x) implies x <= o.keys@[j as int] by {
                assert(o.bounded_by(j as int, x));
            }
            assert forall|x: u32| ol@.contains(x) implies x < o.keys@[j as int] by {
                assert(o.routes_to(j as int, x));
            }
            assert forall|x: u32| or.all_keys().contains(x) implies o.keys@[j as int] <= x by {
                assert(o.bounded_by(j + 1, x));
            }
            assert forall|x: u32| or@.contains(x) implies o.keys@[j as int] <= x by {
                or.lemma_view_in_all_keys();
            }
        }
        let right = self.children.remove(j + 1);
        let sep = self.keys.remove(j);
        let Node { keys: mut right_keys, values: mut right_values, children: mut right_children, is_leaf: right_leaf } = right;
        if right_leaf {
            self.children[j].keys.append(&mut right_keys);
            self.children[j].values.append(&mut right_values);
        } else {
            self.children[j].keys.push(sep);
            self.children[j].keys.append(&mut right_keys);
            self.children[j].children.append(&mut right_children);
        }
        proof {
            let n = *self;
            let nm = n.children@[j as int];
            assert forall|a: int| 0 <= a < j implies #[trigger] n.children@[a] == o.children@[a] by {}
            assert forall|a: int| j < a < n.children.len() implies #[trigger] n.children@[a] == o.children@[a + 1] by {}
            if right_leaf {
                ol.lemma_leaf_all_keys();
                lemma_concat_leaves(ol, or, sep, nm);
            } else {
                lemma_concat(ol, or, sep, nm, m);
            }
            assert forall|a: int| 0 <= a < j implies #[trigger] n.keys@[a] == o.keys@[a] by {}
            assert forall|a: int| j <= a < n.keys.len() implies #[trigger] n.keys@[a] == o.keys@[a + 1] by {}
            assert forall|x: u32| #[trigger] nm.all_keys().contains(x) implies n.bounded_by(j as int, x) by {
                if ol.all_keys().contains(x) {
                    assert(o.bounded_by(j as int, x));
                    if j < n.keys.len() {
                        assert(o.keys@[j as int] <= o.keys@[j + 1]);
                    }
                } else if or.all_keys().contains(x) {
                    assert(o.bounded_by(j + 1, x));
                    if j > 0 {
                        assert(o.keys@[j - 1] <= o.keys@[j as int]);
                    }
                } else {
                    if j < n.keys.len() {
                        assert(o.keys@[j as int] <= o.keys@[j + 1]);
                    }
                    if j > 0 {
                        assert(o.keys@[j - 1] <= o.keys@[j as int]);
                    }
                }
            }
            assert forall|x: u32| #[trigger] nm@.contains(x) implies n.routes_to(j as int, x) by {
                if ol@.contains(x) {
                    assert(o.routes_to(j as int, x));
                    if j < n.keys.len() {
                        assert(o.keys@[j as int] <= o.keys@[j + 1]);
                    }
                } else {
                    assert(o.routes_to(j + 1, x));
                    if j > 0 {
                        assert(o.keys@[j - 1] <= o.keys@[j as int]);
                    }
                }
            }
            lemma_merged(o, n, j as int);
            assert(min_keys(m) <= nm.keys.len() < m);
            if j > 0 {
                assert(o.child_fits(0, m));
            }
            assert(n.height() == o.height());
            assert forall|a: int| 0 <= a < n.children.len() implies #[trigger] n.child_fits(a, m) by {
                if a < j {
                    assert(o.child_fits(a, m));
                } else if a > j {
                    assert(o.child_fits(a + 1, m));
                }
            }
            n.lemma_fits_balanced(m);
        }
    }

    /// The fewest keys a node other than the root may hold.
    fn min_key(max_degree: usize) -> (r: usize)
        requires
            3 <= max_degree,
        ensures
            r == min_keys(max_degree as nat),
            1 <= r,
    {
        (max_degree - 1) / 2
    }

    /// Restores the key count of child `i`, one short of the minimum, by the
    /// first of these that applies: borrowing from the left sibling,
    /// borrowing from the right sibling, merging with a sibling.
    fn fix_underflow(&mut self, i: usize, max_degree: usize)
        requires
            old(self).ordered(),
            3 <= max_degree,
            old(self).underflow_at(i as int, max_degree as nat),
        ensures
            final(self).ordered(),
            final(self).balanced(max_degree as nat),
            !final(self).is_leaf,
            final(self).height() == old(self).height(),
            old(self).keys.len() <= final(self).keys.len() + 1,
            final(self).keys.len() <= old(self).keys.len(),
            final(self)@ == old(self)@,
            final(self).all_keys().subset_of(old(self).all_keys()),
    {
        let ghost m = max_degree as nat;
        let min = Node::min_key(max_degree);
        if i > 0 && self.children[i - 1].keys.len() > min {
            self.borrow_from_left(i, max_degree);
        } else if i + 1 < self.children.len() && self.children[i + 1].keys.len() > min {
            self.borrow_from_right(i, max_degree);
        } else if i > 0 {
            proof {
                assert(self.child_fits(i - 1, m));
            }
            self.merge_children(i - 1, max_degree, Ghost(i as int));
        } else {
            proof {
                assert(self.child_fits(i + 1, m));
            }
            self.merge_children(i, max_degree, Ghost(i as int));
        }
    }

    /// Removes `key` from below this node and returns its value, or returns
    /// `None` when it is not stored. A child left one key short is
    /// rebalanced before returning; this node itself may end one key short.
    pub fn remove(&mut self, key: &u32, max_degree: usize) -> (r: Option<u32>)
        requires
            old(self).ordered(),
            old(self).balanced(max_degree as nat),
            3 <= max_degree,
            !old(self).leaf() ==> 1 <= old(self).key_count(),
        ensures
            final(self).ordered(),
            final(self).balanced(max_degree as nat),
            final(self).leaf() == old(self).leaf(),
            final(self).height() == old(self).height(),
            final(self)@ == old(self)@.remove(*key),
            r == if old(self)@.contains(*key) {
                Some(*key)
            } else {
                None::<u32>
            },
            final(self).all_keys().subset_of(old(self).all_keys()),
            old(self).key_count() <= final(self).key_count() + 1,
            final(self).key_count() <= old(self).key_count(),
        decreases *old(self),
    {
        let ghost o = *self;
        let ghost m = max_degree as nat;
        let i = upper_bound(&self.keys, *key);
        if self.is_leaf {
            if i > 0 && self.keys[i - 1] == *key {
                self.keys.remove(i - 1);
                let value = self.values.remove(i - 1);
                proof {
                    let k = o.keys@;
                    let n = *self;
                    let p = i - 1;
                    o.lemma_leaf_all_keys();
                    n.lemma_leaf_all_keys();
                    assert forall|a: int| 0 <= a < n.keys.len() implies #[trigger] n.keys@[a] == if a < p { k[a] } else { k[a + 1] } by {}
                    assert(strictly_sorted(n.keys@)) by {
                        assert forall|a: int, b: int| 0 <= a < b < n.keys.len() implies n.keys@[a] < n.keys@[b] by {
                            assert(n.keys@[a] == if a < p { k[a] } else { k[a + 1] });
                            assert(n.keys@[b] == if b < p { k[b] } else { k[b + 1] });
                        }
                    }
                    assert forall|x: u32| #[trigger] n.keys@.contains(x) <==> k.contains(x) && x != *key by {
                        if n.keys@.contains(x) {
                            let a = choose|a: int| 0 <= a < n.keys.len() && n.keys@[a] == x;
                            if a < p {
                                assert(k[a] == x);
                                assert(k[a] < k[p]);
                            } else {
                                assert(k[a + 1] == x);
                                assert(k[p] < k[a + 1]);
                            }
                        }
                        if k.contains(x) && x != *key {
                            let a = choose|a: int| 0 <= a < k.len() && k[a] == x;
                            if a < p {
                                assert(n.keys@[a] == x);
                            } else {
                                assert(a != p);
                                assert(n.keys@[a - 1] == x);
                            }
                        }
                    }
                    assert(k.contains(*key)) by { assert(k[p] == *key); }
                    assert(n@ =~= o@.remove(*key));
                }
                Some(value)
            } else {
                proof {
                    o.lemma_leaf_all_keys();
                    if o@.contains(*key) {
                        let j = choose|j: int| 0 <= j < o.keys.len() && o.keys@[j] == *key;
                        if j < i - 1 {
                            assert(o.keys@[j] < o.keys@[i - 1]);
                        }
                    }
                    assert(o@.remove(*key) =~= o@);
                }
                None
            }
        } else {
            proof {
                o.lemma_route(i as int, *key);
                assert(o.child_fits(i as int, m));
                o.lemma_child_decreases(i as int);
                o.children@[i as int].lemma_leaf_iff_height();
            }
            let r = self.children[i].remove(key, max_degree);
            proof {
                let n = *self;
                let oc = o.children@[i as int];
                let nc = n.children@[i as int];
                assert(n.children@ =~= o.children@.update(i as int, nc));
                assert forall|x: u32| nc.all_keys().contains(x) implies o.bounded_by(i as int, x) by {
                    assert(oc.all_keys().contains(x));
                }
                assert forall|x: u32| nc@.contains(x) implies o.routes_to(i as int, x) by {
                    assert(oc@.contains(x));
                }
                lemma_replace_child(o, n, i as int);
                assert forall|x: u32| #[trigger] n@.contains(x) <==> o@.remove(*key).contains(x) by {
                    if o.routes_to(i as int, x) {
                        o.lemma_route(i as int, x);
                    }
                }
                assert(n@ =~= o@.remove(*key));
                assert forall|x: u32| n.all_keys().contains(x) implies o.all_keys().contains(x) by {
                    if nc.all_keys().contains(x) {
                        assert(oc.all_keys().contains(x));
                    }
                }
                assert forall|j: int| 0 <= j < n.children.len() && j != i implies #[trigger] n.child_fits(j, m) by {
                    assert(n.children@[j] == o.children@[j]);
                    assert(o.child_fits(j, m));
                }
                if i == 0 {
                    assert(n.height() == o.height());
                } else {
                    assert(n.children@[0] == o.children@[0]);
                }
            }
            if self.children[i].keys.len() < Node::min_key(max_degree) {
                self.fix_underflow(i, max_degree);
            } else {
                proof {
                    assert((*self).child_fits(i as int, m));
                    (*self).lemma_fits_balanced(m);
                }
            }
            r
        }
    }

    /// Appends to `out` the key lists of the nodes `d` levels below this
    /// one, left to right.
    fn collect_depth(&self, d: usize, out: &mut Vec<Vec<u32>>)
        ensures
            final(out).deep_view() == old(out).deep_view() + self.keys_at_depth(d as nat),
        decreases self,
    {
        let ghost start = out.deep_view();
        if d == 0 {
            let mut row: Vec<u32> = Vec::new();
            let mut i: usize = 0;
            while i < self.keys.len()
                invariant
                    i <= self.keys.len(),
                    row@ == self.keys@.subrange(0, i as int),
                decreases self.keys.len() - i,
            {
                row.push(self.keys[i]);
                i = i + 1;
            }
            out.push(row);
            proof {
                assert(row@ =~= self.keys@);
                assert(row.deep_view() =~= self.keys@);
                assert(out.deep_view() =~= start + self.keys_at_depth(0));
            }
        } else {
            let mut j: usize = 0;
            while j < self.children.len()
                invariant
                    j <= self.children.len(),
                    d > 0,
                    out.deep_view() == start + self.keys_at_depth_upto(d as nat, j as int),
                decreases self.children.len() - j,
            {
                proof {
                    self.lemma_child_decreases(j as int);
                }
                self.children[j].collect_depth(d - 1, out);
                proof {
                    assert(start + self.keys_at_depth_upto(d as nat, j + 1) =~= start
                        + self.keys_at_depth_upto(d as nat, j as int) + self.children@[j as int].keys_at_depth(
                        (d - 1) as nat,
                    ));
                }
                j = j + 1;
            }
        }
    }

    pub fn new(is_leaf: bool) -> (r: Node)
        ensures
            r.leaf() == is_leaf,
            r.key_count() == 0,
            r@ == Set::<u32>::empty(),
            is_leaf ==> r.ordered(),
            r.height() == 0,
    {
        let r = Node { keys: Vec::new(), values: Vec::new(), children: Vec::new(), is_leaf };
        assert(r@ =~= Set::<u32>::empty());
        r
    }

    /// Looks `key` up below this node: its value when it is stored, else
    /// `None`. A key equal to a routing key is looked for on its right.
    pub fn search(&self, key: &u32) -> (r: Option<&u32>)
        requires
            self.ordered(),
            self.separated(),
        ensures
            r is Some <==> self@.contains(*key),
            r matches Some(v) ==> *v == *key,
        decreases self,
    {
        let i = upper_bound(&self.keys, *key);
        if self.is_leaf {
            if i > 0 && self.keys[i - 1] == *key {
                Some(&self.values[i - 1])
            } else {
                proof {
                    if self@.contains(*key) {
                        let j = choose|j: int| 0 <= j < self.keys.len() && self.keys@[j] == *key;
                        if j < i - 1 {
                            assert(self.keys@[j] < self.keys@[i - 1]);
                        }
                    }
                }
                None
            }
        } else {
            proof {
                self.lemma_route(i as int, *key);
            }
            self.children[i].search(key)
        }
    }
}

/// The keys held after inserting each of `keys`, in order, into a tree that
/// held `start`.
pub open spec fn keys_after_inserts(start: Set<u32>, keys: Seq<u32>) -> Set<u32>
    decreases keys.len(),
{
    if keys.len() == 0 {
        start
    } else {
        keys_after_inserts(start, keys.drop_last()).insert(keys.last())
    }
}

/// An ordered set of `u32` keys, each stored with itself as its value, in a
/// B+Tree whose nodes have at most `max_degree` children.
pub struct BPlusTree {
    root: Option<Node>,
    max_degree: usize,
}

impl BPlusTree {
    /// The keys stored in the tree.
    pub closed spec fn view(&self) -> Set<u32> {
        match self.root {
            Some(root) => root@,
            None => Set::empty(),
        }
    }

    /// The maximum number of children of a node.
    pub closed spec fn degree(&self) -> nat {
        self.max_degree as nat
    }

    /// The number of levels of the tree: 0 when it is empty, 1 when the root
    /// is a leaf.
    pub closed spec fn height(&self) -> nat {
        match self.root {
            Some(root) => root.height() + 1,
            None => 0,
        }
    }

    /// The number of keys in the root: 0 when the tree is empty.
    pub closed spec fn root_key_count(&self) -> nat {
        match self.root {
            Some(root) => root.keys@.len(),
            None => 0,
        }
    }

    /// All leaves lie at the same depth; every node but the root holds
    /// between `min_keys(degree)` and `degree - 1` keys, and the root between
    /// one and `degree - 1`.
    pub closed spec fn balanced(&self) -> bool {
        match self.root {
            Some(root) => {
                &&& root.balanced(self.max_degree as nat)
                &&& 1 <= root.keys.len() < self.max_degree
            },
            None => true,
        }
    }

    /// The tree is balanced, its keys are in order, and every key can be
    /// found by following the routing keys.
    pub closed spec fn wf(&self) -> bool {
        &&& 3 <= self.max_degree
        &&& self.balanced()
        &&& self.root matches Some(root) ==> root.ordered()
    }

    /// A tree of maximum degree `max_degree` (at least 3: a smaller value is
    /// raised to 3) holding `numbers`, inserted one by one.
    pub fn new(numbers: Vec<u32>, max_degree: usize) -> (t: Self)
        ensures
            t.wf(),
            t.balanced(),
            t@ == keys_after_inserts(Set::empty(), numbers@),
            t.degree() == if max_degree < 3 {
                3
            } else {
                max_degree
            },
    {
        let degree = if max_degree < 3 {
            3
        } else {
            max_degree
        };
        let mut tree = BPlusTree { root: None, max_degree: degree };
        proof {
            assert(tree@ =~= Set::<u32>::empty());
        }
        let mut i: usize = 0;
        while i < numbers.len()
            invariant
                i <= numbers.len(),
                tree.wf(),
                tree.degree() == degree,
                tree@ == keys_after_inserts(Set::empty(), numbers@.subrange(0, i as int)),
            decreases numbers.len() - i,
        {
            tree.insert(numbers[i]);
            proof {
                let next = numbers@.subrange(0, i + 1);
                assert(next.drop_last() =~= numbers@.subrange(0, i as int));
            }
            i = i + 1;
        }
        proof {
            assert(numbers@.subrange(0, numbers.len() as int) =~= numbers@);
        }
        tree
    }

    /// Adds `key`, with itself as its value. Adding a key that is already
    /// stored changes nothing.
    pub fn insert(&mut self, key: u32)
        requires
            old(self).wf(),
        ensures
            final(self).wf(),
            final(self).balanced(),
            final(self).degree() == old(self).degree(),
            final(self)@ == old(self)@.insert(key),
            old(self)@.contains(key) ==> *final(self) == *old(self),
            old(self).height() <= final(self).height() <= old(self).height() + 1,
            old(self).height() == 0 ==> final(self).height() == 1,
            final(self).height() == old(self).height() + 1 ==> old(self).height() == 0
                || final(self).root_key_count() == 1,
    {
        let m = self.max_degree;
        match self.root.take() {
            None => {
                let mut node = Node::new(true);
                node.insert_non_full(key, m);
                proof {
                    node.lemma_leaf_all_keys();
                    assert(node@.contains(key));
                    assert(node.keys@.contains(key));
                    assert(Set::<u32>::empty().insert(key) =~= old(self)@.insert(key));
                }
                self.root = Some(node);
            },
            Some(mut root) => {
                root.insert_non_full(key, m);
                if root.keys.len() == m {
                    let mut children = Vec::new();
                    children.push(root);
                    let mut new_root = Node {
                        keys: Vec::new(),
                        values: Vec::new(),
                        children,
                        is_leaf: false,
                    };
                    proof {
                        let ghost_root = new_root;
                        assert(ghost_root.children@[0] == root);
                        assert(ghost_root.ordered()) by {
                            assert forall|j: int| 0 <= j < ghost_root.children.len() implies #[trigger] ghost_root.children@[j].ordered() by {
                                assert(j == 0);
                            }
                        }
                        assert(ghost_root.height() == root.height() + 1);
                    }
                    new_root.split_child(0, m);
                    self.root = Some(new_root);
                } else {
                    self.root = Some(root);
                }
            },
        }
    }

    /// The key lists of the nodes at depth `depth`, left to right; the root
    /// is at depth 0.
    pub closed spec fn keys_at_depth(&self, depth: nat) -> Seq<Seq<u32>> {
        match self.root {
            Some(root) => root.keys_at_depth(depth),
            None => Seq::empty(),
        }
    }

    /// Lists, left to right, the keys of each node at depth `depth`: one
    /// line of a level-order listing of the tree.
    pub fn level(&self, depth: usize) -> (r: Vec<Vec<u32>>)
        ensures
            r.deep_view() == self.keys_at_depth(depth as nat),
    {
        let mut out: Vec<Vec<u32>> = Vec::new();
        match &self.root {
            Some(node) => {
                node.collect_depth(depth, &mut out);
                proof {
                    assert(out.deep_view() =~= node.keys_at_depth(depth as nat));
                }
            },
            None => {
                proof {
                    assert(out.deep_view() =~= Seq::<Seq<u32>>::empty());
                }
            },
        }
        out
    }

    /// Looks `key` up: its value when it is stored, else `None`.
    pub fn get(&self, key: &u32) -> (r: Option<&u32>)
        requires
            self.wf(),
        ensures
            r is Some <==> self@.contains(*key),
            r matches Some(v) ==> *v == *key,
    {
        match &self.root {
            Some(node) => {
                proof {
                    node.lemma_separated(self.max_degree as nat);
                }
                node.search(key)
            },
            None => None,
        }
    }

    /// Removes `key` and returns its value, or returns `None` and changes
    /// nothing when it is not stored. When the root is left without keys,
    /// its only child takes its place.
    pub fn remove(&mut self, key: &u32) -> (r: Option<u32>)
        requires
            old(self).wf(),
        ensures
            final(self).wf(),
            final(self).balanced(),
            final(self).degree() == old(self).degree(),
            final(self)@ == old(self)@.remove(*key),
            r == if old(self)@.contains(*key) {
                Some(*key)
            } else {
                None::<u32>
            },
            final(self).height() <= old(self).height() <= final(self).height() + 1,
            final(self).height() < old(self).height() ==> old(self).root_key_count() == 1,
    {
        let m = self.max_degree;
        match self.root.take() {
            None => {
                proof {
                    assert(old(self)@.remove(*key) =~= Set::<u32>::empty());
                }
                None
            },
            Some(mut root) => {
                let r = root.remove(key, m);
                if root.keys.len() == 0 {
                    if root.is_leaf {
                        proof {
                            root.lemma_leaf_all_keys();
                            assert(root@ =~= Set::<u32>::empty());
                        }
                    } else {
                        let ghost before = root;
                        let child = root.children.pop().unwrap();
                        proof {
                            assert(child == before.children@[0]);
                            assert(before.child_fits(0, m as nat));
                            assert(child.ordered());
                            assert(before@ =~= child@) by {
                                assert forall|x: u32| before@.contains(x) implies child@.contains(x) by {
                                    let j = choose|j: int| #![trigger before.children@[j]] 0 <= j < before.children.len() && before.children@[j]@.contains(x);
                                    assert(j == 0);
                                }
                                assert forall|x: u32| child@.contains(x) implies before@.contains(x) by {
                                    assert(before.children@[0]@.contains(x));
                                }
                            }
                        }
                        self.root = Some(child);
                    }
                } else {
                    self.root = Some(root);
                }
                r
            },
        }
    }
}

/// Inserting every key of `keys` into an empty tree gives a tree in which
/// each of those keys is found and no other key is.
pub proof fn lemma_round_trip(keys: Seq<u32>)
    ensures
        forall|k: u32|
            #[trigger] keys_after_inserts(Set::empty(), keys).contains(k) <==> keys.contains(k),
    decreases keys.len(),
{
    if keys.len() > 0 {
        let front = keys.drop_last();
        lemma_round_trip(front);
        assert(keys_after_inserts(Set::empty(), keys) == keys_after_inserts(Set::empty(), front).insert(
            keys.last(),
        ));
        assert forall|k: u32| #[trigger] keys_after_inserts(Set::empty(), keys).contains(k) <==> keys.contains(k) by {
            if front.contains(k) {
                let j = choose|j: int| 0 <= j < front.len() && front[j] == k;
                assert(keys[j] == k);
            }
            if keys.contains(k) && k != keys.last() {
                let j = choose|j: int| 0 <= j < keys.len() && keys[j] == k;
                assert(front[j] == k);
            }
            if k == keys.last() {
                assert(keys[keys.len() - 1] == k);
            }
        }
    }
}

/// Inserting a key a second time changes neither the stored keys nor their
/// number.
pub proof fn lemma_insert_twice(keys: Set<u32>, k: u32)
    requires
        keys.finite(),
    ensures
        keys.insert(k).insert(k) == keys.insert(k),
        keys.insert(k).insert(k).len() == keys.insert(k).len(),
{
    assert(keys.insert(k).insert(k) =~= keys.insert(k));
}

/// Removing a key that is not stored leaves every stored key in place.
pub proof fn lemma_remove_absent(keys: Set<u32>, k: u32)
    requires
        !keys.contains(k),
    ensures
        keys.remove(k) == keys,
        forall|x: u32| #[trigger] keys.remove(k).contains(x) <==> keys.contains(x),
{
    assert(keys.remove(k) =~= keys);
}

/// After inserting every key of `keys` and then removing one of them, that
/// key is no longer found and every other one still is.
pub proof fn lemma_remove_after_inserts(keys: Seq<u32>, k: u32)
    requires
        keys.contains(k),
    ensures
        !keys_after_inserts(Set::empty(), keys).remove(k).contains(k),
        forall|x: u32|
            keys.contains(x) && x != k ==> #[trigger] keys_after_inserts(
                Set::empty(),
                keys,
            ).remove(k).contains(x),
{
    lemma_round_trip(keys);
}

/// The node `n` is `o` with child `i` replaced by `l` and `r`, and `sep`
/// added between them as key `i`.
spec fn split_at(o: Node, n: Node, i: int, l: Node, r: Node, sep: u32) -> bool {
    &&& !o.is_leaf
    &&& !n.is_leaf
    &&& 0 <= i < o.children.len()
    &&& n.values == o.values
    &&& o.children.len() == o.keys.len() + 1
    &&& n.keys.len() == o.keys.len() + 1
    &&& n.children.len() == o.children.len() + 1
    &&& forall|j: int| 0 <= j < i ==> #[trigger] n.children@[j] == o.children@[j]
    &&& forall|j: int| 0 <= j < i ==> #[trigger] n.keys@[j] == o.keys@[j]
    &&& forall|j: int| i + 1 < j < n.children.len() ==> #[trigger] n.children@[j] == o.children@[j - 1]
    &&& forall|j: int| i < j < n.keys.len() ==> #[trigger] n.keys@[j] == o.keys@[j - 1]
    &&& n.children@[i] == l
    &&& n.children@[i + 1] == r
    &&& n.keys@[i] == sep
    &&& l@.union(r@) == o.children@[i]@
    &&& l.all_keys().union(r.all_keys()).insert(sep) == o.children@[i].all_keys()
    &&& forall|x: u32| l.all_keys().contains(x) ==> x <= sep
    &&& forall|x: u32| l@.contains(x) ==> x < sep
    &&& forall|x: u32| r.all_keys().contains(x) ==> sep <= x
}

proof fn lemma_split_ordered(o: Node, n: Node, i: int, l: Node, r: Node, sep: u32)
    requires
        o.ordered(),
        split_at(o, n, i, l, r, sep),
        l.ordered(),
        r.ordered(),
    ensures
        n.ordered(),
{
    let k = o.keys@;
    let c = o.children@;
    let oc = c[i];
    assert(oc.all_keys().contains(sep));
    assert(o.bounded_by(i, sep));
    assert(sorted(n.keys@)) by {
        assert forall|a: int, b: int| 0 <= a < b < n.keys.len() implies n.keys@[a] <= n.keys@[b] by {
            if a < i && b == i {
                assert(k[a] <= k[i - 1]);
            } else if a == i && b > i {
                assert(k[i] <= k[b - 1]);
            }
        }
    }
    assert forall|j: int| 0 <= j < n.children.len() implies #[trigger] n.children@[j].ordered() by {
        if j > i + 1 {
            assert(c[j - 1].ordered());
        } else if j < i {
            assert(c[j].ordered());
        }
    }
    assert forall|j: int, x: u32| 0 <= j < n.children.len() && #[trigger] n.children@[j].all_keys().contains(x) implies n.bounded_by(j, x) by {
        if j < i {
            assert(o.bounded_by(j, x));
        } else if j == i || j == i + 1 {
            assert(oc.all_keys().contains(x));
            assert(o.bounded_by(i, x));
        } else {
            assert(o.bounded_by(j - 1, x));
        }
    }
    assert forall|j: int, x: u32| 0 <= j < n.children.len() && #[trigger] n.children@[j]@.contains(x) implies n.routes_to(j, x) by {
        if j < i {
            assert(o.routes_to(j, x));
        } else if j == i {
            assert(oc@.contains(x));
            assert(o.routes_to(i, x));
        } else if j == i + 1 {
            assert(oc@.contains(x));
            assert(o.routes_to(i, x));
            r.lemma_view_in_all_keys();
        } else {
            assert(o.routes_to(j - 1, x));
        }
    }
}

proof fn lemma_split_contents(o: Node, n: Node, i: int, l: Node, r: Node, sep: u32)
    requires
        split_at(o, n, i, l, r, sep),
    ensures
        n@ == o@,
        n.all_keys() == o.all_keys(),
{
    let k = o.keys@;
    let c = o.children@;
    assert forall|x: u32| #[trigger] n@.contains(x) <==> o@.contains(x) by {
        if n@.contains(x) {
            let j = choose|j: int| #![trigger n.children@[j]] 0 <= j < n.children.len() && n.children@[j]@.contains(x);
            if j > i + 1 {
                assert(c[j - 1]@.contains(x));
            } else if j >= i {
                assert(c[i]@.contains(x));
            }
        }
        if o@.contains(x) {
            let j = choose|j: int| #![trigger c[j]] 0 <= j < c.len() && c[j]@.contains(x);
            if j > i {
                assert(n.children@[j + 1]@.contains(x));
            } else if j == i {
                if l@.contains(x) {
                    assert(n.children@[i]@.contains(x));
                } else {
                    assert(n.children@[i + 1]@.contains(x));
                }
            } else {
                assert(n.children@[j]@.contains(x));
            }
        }
    }
    assert forall|x: u32| #[trigger] n.all_keys().contains(x) <==> o.all_keys().contains(x) by {
        if n.all_keys().contains(x) {
            if n.keys@.contains(x) {
                let j = choose|j: int| 0 <= j < n.keys.len() && n.keys@[j] == x;
                if j > i {
                    assert(k[j - 1] == x);
                } else if j < i {
                    assert(k[j] == x);
                } else {
                    assert(c[i].all_keys().contains(x));
                }
            } else {
                let j = choose|j: int| #![trigger n.children@[j]] 0 <= j < n.children.len() && n.children@[j].all_keys().contains(x);
                if j > i + 1 {
                    assert(c[j - 1].all_keys().contains(x));
                } else if j >= i {
                    assert(c[i].all_keys().contains(x));
                }
            }
        }
        if o.all_keys().contains(x) {
            if k.contains(x) {
                let j = choose|j: int| 0 <= j < k.len() && k[j] == x;
                if j >= i {
                    assert(n.keys@[j + 1] == x);
                } else {
                    assert(n.keys@[j] == x);
                }
            } else {
                let j = choose|j: int| #![trigger c[j]] 0 <= j < c.len() && c[j].all_keys().contains(x);
                if j > i {
                    assert(n.children@[j + 1].all_keys().contains(x));
                } else if j == i {
                    if x == sep {
                        assert(n.keys@[i] == x);
                    } else if l.all_keys().contains(x) {
                        assert(n.children@[i].all_keys().contains(x));
                    } else {
                        assert(n.children@[i + 1].all_keys().contains(x));
                    }
                } else {
                    assert(n.children@[j].all_keys().contains(x));
                }
            }
        }
    }
    assert(n@ =~= o@);
    assert(n.all_keys() =~= o.all_keys());
}

/// The node `n` is `o` with child `i` replaced by a subtree that stays in
/// the range of child `i`.
proof fn lemma_replace_child(o: Node, n: Node, i: int)
    requires
        o.ordered(),
        !o.is_leaf,
        !n.is_leaf,
        0 <= i < o.children.len(),
        n.keys == o.keys,
        n.values == o.values,
        n.children@ == o.children@.update(i, n.children@[i]),
        n.children@[i].ordered(),
        forall|x: u32| n.children@[i].all_keys().contains(x) ==> o.bounded_by(i, x),
        forall|x: u32| n.children@[i]@.contains(x) ==> o.routes_to(i, x),
    ensures
        n.ordered(),
        forall|x: u32|
            #[trigger] n@.contains(x) <==> if o.routes_to(i, x) {
                n.children@[i]@.contains(x)
            } else {
                o@.contains(x)
            },
        n.all_keys().subset_of(o.all_keys().union(n.children@[i].all_keys())),
{
    let c = o.children@;
    assert forall|j: int| 0 <= j < n.children.len() && j != i implies #[trigger] n.children@[j] == c[j] by {}
    assert(n.ordered()) by {
        assert forall|j: int, x: u32| 0 <= j < n.children.len() && #[trigger] n.children@[j].all_keys().contains(x) implies n.bounded_by(j, x) by {
            if j != i {
                assert(o.bounded_by(j, x));
            } else {
                assert(o.bounded_by(i, x));
            }
            assert(n.keys@ == o.keys@);
        }
        assert forall|j: int, x: u32| 0 <= j < n.children.len() && #[trigger] n.children@[j]@.contains(x) implies n.routes_to(j, x) by {
            if j != i {
                assert(o.routes_to(j, x));
            } else {
                assert(o.routes_to(i, x));
            }
            assert(n.keys@ == o.keys@);
        }
    }
    assert forall|x: u32| #[trigger] n@.contains(x) <==> if o.routes_to(i, x) {
        n.children@[i]@.contains(x)
    } else {
        o@.contains(x)
    } by {
        if o.routes_to(i, x) {
            n.lemma_route(i, x);
        } else {
            if n@.contains(x) {
                let j = choose|j: int| #![trigger n.children@[j]] 0 <= j < n.children.len() && n.children@[j]@.contains(x);
                assert(j != i);
                assert(c[j]@.contains(x));
            }
            if o@.contains(x) {
                let j = choose|j: int| #![trigger c[j]] 0 <= j < c.len() && c[j]@.contains(x);
                assert(o.routes_to(j, x));
                assert(j != i);
                assert(n.children@[j]@.contains(x));
            }
        }
    }
    assert forall|x: u32| n.all_keys().contains(x) implies #[trigger] o.all_keys().union(n.children@[i].all_keys()).contains(x) by {
        if !n.keys@.contains(x) && !n.children@[i].all_keys().contains(x) {
            let j = choose|j: int| #![trigger n.children@[j]] 0 <= j < n.children.len() && n.children@[j].all_keys().contains(x);
            assert(c[j].all_keys().contains(x));
        }
    }
}

/// The node `n` is `o` with children `j` and `j + 1` and the key between
/// them rewritten, the keys of both children together staying the same.
proof fn lemma_pair_replaced(o: Node, n: Node, j: int)
    requires
        o.ordered(),
        !o.is_leaf,
        !n.is_leaf,
        0 <= j,
        j + 1 < o.children.len(),
        n.values == o.values,
        n.keys.len() == o.keys.len(),
        n.children.len() == o.children.len(),
        forall|a: int| 0 <= a < o.keys.len() && a != j ==> #[trigger] n.keys@[a] == o.keys@[a],
        forall|a: int|
            0 <= a < o.children.len() && a != j && a != j + 1 ==> #[trigger] n.children@[a]
                == o.children@[a],
        sorted(n.keys@),
        n.children@[j].ordered(),
        n.children@[j + 1].ordered(),
        forall|x: u32| #[trigger] n.children@[j].all_keys().contains(x) ==> n.bounded_by(j, x),
        forall|x: u32| #[trigger] n.children@[j]@.contains(x) ==> n.routes_to(j, x),
        forall|x: u32|
            #[trigger] n.children@[j + 1].all_keys().contains(x) ==> n.bounded_by(j + 1, x),
        forall|x: u32| #[trigger] n.children@[j + 1]@.contains(x) ==> n.routes_to(j + 1, x),
        n.children@[j]@.union(n.children@[j + 1]@) == o.children@[j]@.union(o.children@[j + 1]@),
        n.children@[j].all_keys().union(n.children@[j + 1].all_keys()).insert(n.keys@[j]).subset_of(
            o.children@[j].all_keys().union(o.children@[j + 1].all_keys()).insert(o.keys@[j]),
        ),
    ensures
        n.ordered(),
        n@ == o@,
        n.all_keys().subset_of(o.all_keys()),
{
    let c = o.children@;
    assert(n.ordered()) by {
        assert forall|a: int| 0 <= a < n.children.len() implies #[trigger] n.children@[a].ordered() by {
            if a != j && a != j + 1 {
                assert(c[a].ordered());
            }
        }
        assert forall|a: int, x: u32| 0 <= a < n.children.len() && #[trigger] n.children@[a].all_keys().contains(x) implies n.bounded_by(a, x) by {
            if a != j && a != j + 1 {
                assert(o.bounded_by(a, x));
                if a > 0 {
                    assert(n.keys@[a - 1] == o.keys@[a - 1]);
                }
                if a < n.keys.len() {
                    assert(n.keys@[a] == o.keys@[a]);
                }
            }
        }
        assert forall|a: int, x: u32| 0 <= a < n.children.len() && #[trigger] n.children@[a]@.contains(x) implies n.routes_to(a, x) by {
            if a != j && a != j + 1 {
                assert(o.routes_to(a, x));
                if a > 0 {
                    assert(n.keys@[a - 1] == o.keys@[a - 1]);
                }
                if a < n.keys.len() {
                    assert(n.keys@[a] == o.keys@[a]);
                }
            }
        }
    }
    assert forall|x: u32| #[trigger] n@.contains(x) <==> o@.contains(x) by {
        if n@.contains(x) {
            let a = choose|a: int| #![trigger n.children@[a]] 0 <= a < n.children.len() && n.children@[a]@.contains(x);
            if a == j || a == j + 1 {
                assert(n.children@[j]@.union(n.children@[j + 1]@).contains(x));
                if c[j]@.contains(x) {
                } else {
                    assert(c[j + 1]@.contains(x));
                }
            } else {
                assert(c[a]@.contains(x));
            }
        }
        if o@.contains(x) {
            let a = choose|a: int| #![trigger c[a]] 0 <= a < c.len() && c[a]@.contains(x);
            if a == j || a == j + 1 {
                assert(c[j]@.union(c[j + 1]@).contains(x));
                if n.children@[j]@.contains(x) {
                } else {
                    assert(n.children@[j + 1]@.contains(x));
                }
            } else {
                assert(n.children@[a]@.contains(x));
            }
        }
    }
    assert(n@ =~= o@);
    assert forall|x: u32| n.all_keys().contains(x) implies #[trigger] o.all_keys().contains(x) by {
        let big = c[j].all_keys().union(c[j + 1].all_keys()).insert(o.keys@[j]);
        if n.keys@.contains(x) {
            let a = choose|a: int| 0 <= a < n.keys.len() && n.keys@[a] == x;
            if a == j {
                assert(big.contains(x));
            } else {
                assert(o.keys@[a] == x);
            }
        } else {
            let a = choose|a: int| #![trigger n.children@[a]] 0 <= a < n.children.len() && n.children@[a].all_keys().contains(x);
            if a == j || a == j + 1 {
                assert(big.contains(x));
            } else {
                assert(c[a].all_keys().contains(x));
            }
        }
        if x == o.keys@[j] {
            assert(o.keys@.contains(x));
        } else if c[j].all_keys().contains(x) {
        } else if c[j + 1].all_keys().contains(x) {
        }
    }
}

/// The node `n` is `o` with children `j` and `j + 1` merged into one and the
/// key between them removed.
proof fn lemma_merged(o: Node, n: Node, j: int)
    requires
        o.ordered(),
        !o.is_leaf,
        !n.is_leaf,
        0 <= j,
        j + 1 < o.children.len(),
        n.values == o.values,
        n.keys@ == o.keys@.remove(j),
        n.children.len() + 1 == o.children.len(),
        forall|a: int| 0 <= a < j ==> #[trigger] n.children@[a] == o.children@[a],
        forall|a: int| j < a < n.children.len() ==> #[trigger] n.children@[a] == o.children@[a + 1],
        n.children@[j].ordered(),
        forall|x: u32| #[trigger] n.children@[j].all_keys().contains(x) ==> n.bounded_by(j, x),
        forall|x: u32| #[trigger] n.children@[j]@.contains(x) ==> n.routes_to(j, x),
        n.children@[j]@ == o.children@[j]@.union(o.children@[j + 1]@),
        n.children@[j].all_keys().subset_of(
            o.children@[j].all_keys().union(o.children@[j + 1].all_keys()).insert(o.keys@[j]),
        ),
    ensures
        n.ordered(),
        n@ == o@,
        n.all_keys().subset_of(o.all_keys()),
{
    let c = o.children@;
    let k = o.keys@;
    assert forall|a: int| 0 <= a < j implies #[trigger] n.keys@[a] == k[a] by {}
    assert forall|a: int| j <= a < n.keys.len() implies #[trigger] n.keys@[a] == k[a + 1] by {}
    assert(n.ordered()) by {
        assert forall|a: int, b: int| 0 <= a < b < n.keys.len() implies n.keys@[a] <= n.keys@[b] by {
            if a < j {
                assert(n.keys@[a] == k[a]);
            } else {
                assert(n.keys@[a] == k[a + 1]);
            }
            if b < j {
                assert(n.keys@[b] == k[b]);
            } else {
                assert(n.keys@[b] == k[b + 1]);
            }
        }
        assert forall|a: int| 0 <= a < n.children.len() implies #[trigger] n.children@[a].ordered() by {
            if a < j {
                assert(c[a].ordered());
            } else if a > j {
                assert(c[a + 1].ordered());
            }
        }
        assert forall|a: int, x: u32| 0 <= a < n.children.len() && #[trigger] n.children@[a].all_keys().contains(x) implies n.bounded_by(a, x) by {
            if a < j {
                assert(o.bounded_by(a, x));
            } else if a > j {
                assert(o.bounded_by(a + 1, x));
            }
        }
        assert forall|a: int, x: u32| 0 <= a < n.children.len() && #[trigger] n.children@[a]@.contains(x) implies n.routes_to(a, x) by {
            if a < j {
                assert(o.routes_to(a, x));
            } else if a > j {
                assert(o.routes_to(a + 1, x));
            }
        }
    }
    assert forall|x: u32| #[trigger] n@.contains(x) <==> o@.contains(x) by {
        if n@.contains(x) {
            let a = choose|a: int| #![trigger n.children@[a]] 0 <= a < n.children.len() && n.children@[a]@.contains(x);
            if a == j {
                if c[j]@.contains(x) {
                } else {
                    assert(c[j + 1]@.contains(x));
                }
            } else if a < j {
                assert(c[a]@.contains(x));
            } else {
                assert(c[a + 1]@.contains(x));
            }
        }
        if o@.contains(x) {
            let a = choose|a: int| #![trigger c[a]] 0 <= a < c.len() && c[a]@.contains(x);
            if a == j || a == j + 1 {
                assert(n.children@[j]@.contains(x));
            } else if a < j {
                assert(n.children@[a]@.contains(x));
            } else {
                assert(n.children@[a - 1]@.contains(x));
            }
        }
    }
    assert(n@ =~= o@);
    assert forall|x: u32| n.all_keys().contains(x) implies #[trigger] o.all_keys().contains(x) by {
        if n.keys@.contains(x) {
            let a = choose|a: int| 0 <= a < n.keys.len() && n.keys@[a] == x;
            if a < j {
                assert(k[a] == x);
            } else {
                assert(k[a + 1] == x);
            }
        } else {
            let a = choose|a: int| #![trigger n.children@[a]] 0 <= a < n.children.len() && n.children@[a].all_keys().contains(x);
            if a == j {
                if x == k[j] {
                    assert(k.contains(x));
                } else if c[j].all_keys().contains(x) {
                } else {
                    assert(c[j + 1].all_keys().contains(x));
                }
            } else if a < j {
                assert(c[a].all_keys().contains(x));
            } else {
                assert(c[a + 1].all_keys().contains(x));
            }
        }
    }
}

/// `n` is the internal node `o` without its last key `k` and last child `g`.
proof fn lemma_drop_last(o: Node, n: Node, m: nat)
    requires
        o.ordered(),
        o.balanced(m),
        !o.is_leaf,
        1 <= o.keys.len(),
        !n.is_leaf,
        n.values == o.values,
        n.keys@ == o.keys@.drop_last(),
        n.children@ == o.children@.drop_last(),
    ensures
        ({
            let k = o.keys@.last();
            let g = o.children@.last();
            &&& n.ordered()
            &&& g.ordered()
            &&& n.balanced(m)
            &&& n.height() == o.height()
            &&& g.balanced(m)
            &&& g.height() + 1 == o.height()
            &&& min_keys(m) <= g.keys.len() < m
            &&& n@.union(g@) == o@
            &&& n.all_keys().union(g.all_keys()).insert(k) == o.all_keys()
            &&& forall|x: u32| n.all_keys().contains(x) ==> x <= k
            &&& forall|x: u32| n@.contains(x) ==> x < k
            &&& forall|x: u32| g.all_keys().contains(x) ==> k <= x
        }),
{
    let k = o.keys@.last();
    let c = o.children@;
    let last = c.len() - 1;
    let g = c[last];
    assert forall|a: int| 0 <= a < n.children.len() implies #[trigger] n.children@[a] == c[a] by {}
    assert forall|a: int| 0 <= a < n.keys.len() implies #[trigger] n.keys@[a] == o.keys@[a] by {}
    assert(n.ordered()) by {
        assert forall|a: int, x: u32| 0 <= a < n.children.len() && #[trigger] n.children@[a].all_keys().contains(x) implies n.bounded_by(a, x) by {
            assert(o.bounded_by(a, x));
        }
        assert forall|a: int, x: u32| 0 <= a < n.children.len() && #[trigger] n.children@[a]@.contains(x) implies n.routes_to(a, x) by {
            assert(o.routes_to(a, x));
        }
    }
    assert(n.balanced(m)) by {
        assert(c[0].height() + 1 == o.height());
        assert forall|a: int| 0 <= a < n.children.len() implies #[trigger] n.child_fits(a, m) by {
            assert(c[a] == n.children@[a]);
        }
        n.lemma_fits_balanced(m);
    }
    assert(c[0].height() + 1 == o.height());
    assert(g.height() + 1 == o.height());
    assert forall|x: u32| #[trigger] o@.contains(x) <==> n@.union(g@).contains(x) by {
        if o@.contains(x) {
            let a = choose|a: int| #![trigger c[a]] 0 <= a < c.len() && c[a]@.contains(x);
            if a < last {
                assert(n.children@[a]@.contains(x));
            }
        }
        if n@.contains(x) {
            let a = choose|a: int| #![trigger n.children@[a]] 0 <= a < n.children.len() && n.children@[a]@.contains(x);
            assert(c[a]@.contains(x));
        }
        if g@.contains(x) {
            assert(c[last]@.contains(x));
        }
    }
    assert forall|x: u32| #[trigger] o.all_keys().contains(x) <==> n.all_keys().union(g.all_keys()).insert(k).contains(x) by {
        if o.all_keys().contains(x) && x != k {
            if o.keys@.contains(x) {
                let a = choose|a: int| 0 <= a < o.keys.len() && o.keys@[a] == x;
                assert(n.keys@[a] == x);
            } else {
                let a = choose|a: int| #![trigger c[a]] 0 <= a < c.len() && c[a].all_keys().contains(x);
                if a < last {
                    assert(n.children@[a].all_keys().contains(x));
                }
            }
        }
        if n.all_keys().contains(x) {
            if n.keys@.contains(x) {
                let a = choose|a: int| 0 <= a < n.keys.len() && n.keys@[a] == x;
                assert(o.keys@[a] == x);
            } else {
                let a = choose|a: int| #![trigger n.children@[a]] 0 <= a < n.children.len() && n.children@[a].all_keys().contains(x);
                assert(c[a].all_keys().contains(x));
            }
        }
        if g.all_keys().contains(x) {
            assert(c[last].all_keys().contains(x));
        }
        if x == k {
            assert(o.keys@[o.keys.len() - 1] == k);
        }
    }
    assert forall|x: u32| n.all_keys().contains(x) implies x <= k by {
        if n.keys@.contains(x) {
            let a = choose|a: int| 0 <= a < n.keys.len() && n.keys@[a] == x;
            assert(o.keys@[a] <= o.keys@[o.keys.len() - 1]);
        } else {
            let a = choose|a: int| #![trigger n.children@[a]] 0 <= a < n.children.len() && n.children@[a].all_keys().contains(x);
            assert(o.bounded_by(a, x));
            assert(o.keys@[a] <= o.keys@[o.keys.len() - 1]);
        }
    }
    assert forall|x: u32| n@.contains(x) implies x < k by {
        let a = choose|a: int| #![trigger n.children@[a]] 0 <= a < n.children.len() && n.children@[a]@.contains(x);
        assert(o.routes_to(a, x));
        assert(o.keys@[a] <= o.keys@[o.keys.len() - 1]);
    }
    assert forall|x: u32| g.all_keys().contains(x) implies k <= x by {
        assert(o.bounded_by(last, x));
    }
    assert(n@.union(g@) =~= o@);
    assert(n.all_keys().union(g.all_keys()).insert(k) =~= o.all_keys());
}

/// `n` is the internal node `o` without its first key `k` and first child `g`.
proof fn lemma_drop_first(o: Node, n: Node, m: nat)
    requires
        o.ordered(),
        o.balanced(m),
        !o.is_leaf,
        1 <= o.keys.len(),
        !n.is_leaf,
        n.values == o.values,
        n.keys@ == o.keys@.subrange(1, o.keys.len() as int),
        n.children@ == o.children@.subrange(1, o.children.len() as int),
    ensures
        ({
            let k = o.keys@[0];
            let g = o.children@[0];
            &&& n.ordered()
            &&& g.ordered()
            &&& n.balanced(m)
            &&& n.height() == o.height()
            &&& g.balanced(m)
            &&& g.height() + 1 == o.height()
            &&& min_keys(m) <= g.keys.len() < m
            &&& n@.union(g@) == o@
            &&& n.all_keys().union(g.all_keys()).insert(k) == o.all_keys()
            &&& forall|x: u32| n.all_keys().contains(x) ==> k <= x
            &&& forall|x: u32| g.all_keys().contains(x) ==> x <= k
            &&& forall|x: u32| g@.contains(x) ==> x < k
        }),
{
    let k = o.keys@[0];
    let c = o.children@;
    let g = c[0];
    assert forall|a: int| 0 <= a < n.children.len() implies #[trigger] n.children@[a] == c[a + 1] by {}
    assert forall|a: int| 0 <= a < n.keys.len() implies #[trigger] n.keys@[a] == o.keys@[a + 1] by {}
    assert(n.ordered()) by {
        assert forall|a: int, x: u32| 0 <= a < n.children.len() && #[trigger] n.children@[a].all_keys().contains(x) implies n.bounded_by(a, x) by {
            assert(o.bounded_by(a + 1, x));
        }
        assert forall|a: int, x: u32| 0 <= a < n.children.len() && #[trigger] n.children@[a]@.contains(x) implies n.routes_to(a, x) by {
            assert(o.routes_to(a + 1, x));
        }
    }
    assert(n.balanced(m)) by {
        assert(c[1].height() + 1 == o.height());
        assert forall|a: int| 0 <= a < n.children.len() implies #[trigger] n.child_fits(a, m) by {
            assert(c[a + 1] == n.children@[a]);
        }
        n.lemma_fits_balanced(m);
    }
    assert(c[1].height() + 1 == o.height());
    assert(g.height() + 1 == o.height());
    assert forall|x: u32| #[trigger] o@.contains(x) <==> n@.union(g@).contains(x) by {
        if o@.contains(x) {
            let a = choose|a: int| #![trigger c[a]] 0 <= a < c.len() && c[a]@.contains(x);
            if a > 0 {
                assert(n.children@[a - 1]@.contains(x));
            }
        }
        if n@.contains(x) {
            let a = choose|a: int| #![trigger n.children@[a]] 0 <= a < n.children.len() && n.children@[a]@.contains(x);
            assert(c[a + 1]@.contains(x));
        }
        if g@.contains(x) {
            assert(c[0]@.contains(x));
        }
    }
    assert forall|x: u32| #[trigger] o.all_keys().contains(x) <==> n.all_keys().union(g.all_keys()).insert(k).contains(x) by {
        if o.all_keys().contains(x) && x != k {
            if o.keys@.contains(x) {
                let a = choose|a: int| 0 <= a < o.keys.len() && o.keys@[a] == x;
                assert(n.keys@[a - 1] == x);
            } else {
                let a = choose|a: int| #![trigger c[a]] 0 <= a < c.len() && c[a].all_keys().contains(x);
                if a > 0 {
                    assert(n.children@[a - 1].all_keys().contains(x));
                }
            }
        }
        if n.all_keys().contains(x) {
            if n.keys@.contains(x) {
                let a = choose|a: int| 0 <= a < n.keys.len() && n.keys@[a] == x;
                assert(o.keys@[a + 1] == x);
            } else {
                let a = choose|a: int| #![trigger n.children@[a]] 0 <= a < n.children.len() && n.children@[a].all_keys().contains(x);
                assert(c[a + 1].all_keys().contains(x));
            }
        }
        if g.all_keys().contains(x) {
            assert(c[0].all_keys().contains(x));
        }
        if x == k {
            assert(o.keys@[0] == k);
        }
    }
    assert forall|x: u32| n.all_keys().contains(x) implies k <= x by {
        if n.keys@.contains(x) {
            let a = choose|a: int| 0 <= a < n.keys.len() && n.keys@[a] == x;
            assert(o.keys@[0] <= o.keys@[a + 1]);
        } else {
            let a = choose|a: int| #![trigger n.children@[a]] 0 <= a < n.children.len() && n.children@[a].all_keys().contains(x);
            assert(o.bounded_by(a + 1, x));
            assert(o.keys@[0] <= o.keys@[a]);
        }
    }
    assert forall|x: u32| g.all_keys().contains(x) implies x <= k by {
        assert(o.bounded_by(0, x));
    }
    assert forall|x: u32| g@.contains(x) implies x < k by {
        assert(o.routes_to(0, x));
    }
    assert(n@.union(g@) =~= o@);
    assert(n.all_keys().union(g.all_keys()).insert(k) =~= o.all_keys());
}

/// `n` is the internal node `o` with key `k` and child `g` put in front.
proof fn lemma_push_front(o: Node, n: Node, k: u32, g: Node, m: nat)
    requires
        o.ordered(),
        o.balanced(m),
        !o.is_leaf,
        g.ordered(),
        g.balanced(m),
        g.height() + 1 == o.height(),
        min_keys(m) <= g.keys.len() < m,
        forall|x: u32| g.all_keys().contains(x) ==> x <= k,
        forall|x: u32| g@.contains(x) ==> x < k,
        forall|x: u32| o.all_keys().contains(x) ==> k <= x,
        !n.is_leaf,
        n.values == o.values,
        n.keys@ == o.keys@.insert(0, k),
        n.children@ == o.children@.insert(0, g),
    ensures
        n.ordered(),
        n.balanced(m),
        n.height() == o.height(),
        n@ == o@.union(g@),
        n.all_keys() == o.all_keys().union(g.all_keys()).insert(k),
{
    let c = o.children@;
    assert forall|a: int| 0 < a < n.children.len() implies #[trigger] n.children@[a] == c[a - 1] by {}
    assert forall|a: int| 0 < a < n.keys.len() implies #[trigger] n.keys@[a] == o.keys@[a - 1] by {}
    assert(n.children@[0] == g);
    assert(n.keys@[0] == k);
    assert(o.keys.len() > 0 ==> o.all_keys().contains(o.keys@[0])) by {
        if o.keys.len() > 0 {
            assert(o.keys@.contains(o.keys@[0]));
        }
    }
    assert(n.ordered()) by {
        assert(sorted(n.keys@)) by {
            assert forall|a: int, b: int| 0 <= a < b < n.keys.len() implies n.keys@[a] <= n.keys@[b] by {
                if a > 0 {
                    assert(n.keys@[a] == o.keys@[a - 1]);
                } else {
                    assert(o.keys@[0] <= o.keys@[b - 1]);
                }
            }
        }
        assert forall|a: int| 0 <= a < n.children.len() implies #[trigger] n.children@[a].ordered() by {
            if a > 0 {
                assert(c[a - 1].ordered());
            }
        }
        assert forall|a: int, x: u32| 0 <= a < n.children.len() && #[trigger] n.children@[a].all_keys().contains(x) implies n.bounded_by(a, x) by {
            if a > 0 {
                assert(o.bounded_by(a - 1, x));
                assert(o.all_keys().contains(x));
            }
        }
        assert forall|a: int, x: u32| 0 <= a < n.children.len() && #[trigger] n.children@[a]@.contains(x) implies n.routes_to(a, x) by {
            if a > 0 {
                assert(o.routes_to(a - 1, x));
                c[a - 1].lemma_view_in_all_keys();
                assert(o.all_keys().contains(x));
            }
        }
    }
    assert(n.balanced(m)) by {
        if o.children.len() > 0 {
            assert(c[0].height() + 1 == o.height());
        }
        assert forall|a: int| 0 <= a < n.children.len() implies #[trigger] n.child_fits(a, m) by {
            if a > 0 {
                assert(c[a - 1] == n.children@[a]);
            }
        }
        n.lemma_fits_balanced(m);
    }
    assert forall|x: u32| #[trigger] n@.contains(x) <==> o@.union(g@).contains(x) by {
        if n@.contains(x) {
            let a = choose|a: int| #![trigger n.children@[a]] 0 <= a < n.children.len() && n.children@[a]@.contains(x);
            if a > 0 {
                assert(c[a - 1]@.contains(x));
            }
        }
        if o@.contains(x) {
            let a = choose|a: int| #![trigger c[a]] 0 <= a < c.len() && c[a]@.contains(x);
            assert(n.children@[a + 1]@.contains(x));
        }
        if g@.contains(x) {
            assert(n.children@[0]@.contains(x));
        }
    }
    assert forall|x: u32| #[trigger] n.all_keys().contains(x) <==> o.all_keys().union(g.all_keys()).insert(k).contains(x) by {
        if n.all_keys().contains(x) {
            if n.keys@.contains(x) {
                let a = choose|a: int| 0 <= a < n.keys.len() && n.keys@[a] == x;
                if a > 0 {
                    assert(o.keys@[a - 1] == x);
                }
            } else {
                let a = choose|a: int| #![trigger n.children@[a]] 0 <= a < n.children.len() && n.children@[a].all_keys().contains(x);
                if a > 0 {
                    assert(c[a - 1].all_keys().contains(x));
                }
            }
        }
        if o.all_keys().contains(x) {
            if o.keys@.contains(x) {
                let a = choose|a: int| 0 <= a < o.keys.len() && o.keys@[a] == x;
                assert(n.keys@[a + 1] == x);
            } else {
                let a = choose|a: int| #![trigger c[a]] 0 <= a < c.len() && c[a].all_keys().contains(x);
                assert(n.children@[a + 1].all_keys().contains(x));
            }
        }
        if g.all_keys().contains(x) {
            assert(n.children@[0].all_keys().contains(x));
        }
        if x == k {
            assert(n.keys@.contains(x));
        }
    }
    assert(n@ =~= o@.union(g@));
    assert(n.all_keys() =~= o.all_keys().union(g.all_keys()).insert(k));
}

/// `n` is the internal node `o` with key `k` and child `g` put at the end.
proof fn lemma_push_back(o: Node, n: Node, k: u32, g: Node, m: nat)
    requires
        o.ordered(),
        o.balanced(m),
        !o.is_leaf,
        g.ordered(),
        g.balanced(m),
        g.height() + 1 == o.height(),
        min_keys(m) <= g.keys.len() < m,
        forall|x: u32| g.all_keys().contains(x) ==> k <= x,
        forall|x: u32| o.all_keys().contains(x) ==> x <= k,
        forall|x: u32| o@.contains(x) ==> x < k,
        !n.is_leaf,
        n.values == o.values,
        n.keys@ == o.keys@.push(k),
        n.children@ == o.children@.push(g),
    ensures
        n.ordered(),
        n.balanced(m),
        n.height() == o.height(),
        n@ == o@.union(g@),
        n.all_keys() == o.all_keys().union(g.all_keys()).insert(k),
{
    let c = o.children@;
    let last = c.len() as int;
    assert forall|a: int| 0 <= a < last implies #[trigger] n.children@[a] == c[a] by {}
    assert forall|a: int| 0 <= a < o.keys.len() implies #[trigger] n.keys@[a] == o.keys@[a] by {}
    assert(n.children@[last] == g);
    assert(n.keys@[o.keys.len() as int] == k);
    assert(n.ordered()) by {
        assert(sorted(n.keys@)) by {
            assert forall|a: int, b: int| 0 <= a < b < n.keys.len() implies n.keys@[a] <= n.keys@[b] by {
                if b == o.keys.len() {
                    assert(o.keys@.contains(o.keys@[a]));
                    assert(o.all_keys().contains(o.keys@[a]));
                }
            }
        }
        assert forall|a: int| 0 <= a < n.children.len() implies #[trigger] n.children@[a].ordered() by {
            if a < last {
                assert(c[a].ordered());
            }
        }
        assert forall|a: int, x: u32| 0 <= a < n.children.len() && #[trigger] n.children@[a].all_keys().contains(x) implies n.bounded_by(a, x) by {
            if a < last {
                assert(o.bounded_by(a, x));
                assert(o.all_keys().contains(x));
            }
        }
        assert forall|a: int, x: u32| 0 <= a < n.children.len() && #[trigger] n.children@[a]@.contains(x) implies n.routes_to(a, x) by {
            if a < last {
                assert(o.routes_to(a, x));
                assert(o@.contains(x));
            } else {
                g.lemma_view_in_all_keys();
            }
        }
    }
    assert(n.balanced(m)) by {
        assert(c[0].height() + 1 == o.height());
        assert forall|a: int| 0 <= a < n.children.len() implies #[trigger] n.child_fits(a, m) by {
            if a < last {
                assert(c[a] == n.children@[a]);
            }
        }
        n.lemma_fits_balanced(m);
    }
    assert forall|x: u32| #[trigger] n@.contains(x) <==> o@.union(g@).contains(x) by {
        if n@.contains(x) {
            let a = choose|a: int| #![trigger n.children@[a]] 0 <= a < n.children.len() && n.children@[a]@.contains(x);
            if a < last {
                assert(c[a]@.contains(x));
            }
        }
        if o@.contains(x) {
            let a = choose|a: int| #![trigger c[a]] 0 <= a < c.len() && c[a]@.contains(x);
            assert(n.children@[a]@.contains(x));
        }
        if g@.contains(x) {
            assert(n.children@[last]@.contains(x));
        }
    }
    assert forall|x: u32| #[trigger] n.all_keys().contains(x) <==> o.all_keys().union(g.all_keys()).insert(k).contains(x) by {
        if n.all_keys().contains(x) {
            if n.keys@.contains(x) {
                let a = choose|a: int| 0 <= a < n.keys.len() && n.keys@[a] == x;
                if a < o.keys.len() {
                    assert(o.keys@[a] == x);
                }
            } else {
                let a = choose|a: int| #![trigger n.children@[a]] 0 <= a < n.children.len() && n.children@[a].all_keys().contains(x);
                if a < last {
                    assert(c[a].all_keys().contains(x));
                }
            }
        }
        if o.all_keys().contains(x) {
            if o.keys@.contains(x) {
                let a = choose|a: int| 0 <= a < o.keys.len() && o.keys@[a] == x;
                assert(n.keys@[a] == x);
            } else {
                let a = choose|a: int| #![trigger c[a]] 0 <= a < c.len() && c[a].all_keys().contains(x);
                assert(n.children@[a].all_keys().contains(x));
            }
        }
        if g.all_keys().contains(x) {
            assert(n.children@[last].all_keys().contains(x));
        }
        if x == k {
            assert(n.keys@.contains(x));
        }
    }
    assert(n@ =~= o@.union(g@));
    assert(n.all_keys() =~= o.all_keys().union(g.all_keys()).insert(k));
}

/// `n` is the internal node `l`, then key `k`, then the internal node `r`.
proof fn lemma_concat(l: Node, r: Node, k: u32, n: Node, m: nat)
    requires
        l.ordered(),
        r.ordered(),
        !l.is_leaf,
        !r.is_leaf,
        l.balanced(m),
        r.balanced(m),
        l.height() == r.height(),
        forall|x: u32| l.all_keys().contains(x) ==> x <= k,
        forall|x: u32| l@.contains(x) ==> x < k,
        forall|x: u32| r.all_keys().contains(x) ==> k <= x,
        !n.is_leaf,
        n.values == l.values,
        n.keys@ == l.keys@.push(k) + r.keys@,
        n.children@ == l.children@ + r.children@,
    ensures
        n.ordered(),
        n.balanced(m),
        n.height() == l.height(),
        n@ == l@.union(r@),
        n.all_keys() == l.all_keys().union(r.all_keys()).insert(k),
{
    let nl = l.keys.len() as int;
    let lc = l.children@;
    let rc = r.children@;
    assert forall|a: int| 0 <= a < nl implies #[trigger] n.keys@[a] == l.keys@[a] by {}
    assert forall|b: int| 0 <= b < r.keys.len() implies #[trigger] n.keys@[nl + 1 + b] == r.keys@[b] by {}
    assert(n.keys@[nl] == k);
    assert forall|a: int| 0 <= a <= nl implies #[trigger] n.children@[a] == lc[a] by {}
    assert forall|b: int| 0 <= b < rc.len() implies #[trigger] n.children@[nl + 1 + b] == rc[b] by {}
    assert forall|a: int| 0 <= a < nl implies #[trigger] l.keys@[a] <= k by {
        assert(l.keys@.contains(l.keys@[a]));
        assert(l.all_keys().contains(l.keys@[a]));
    }
    assert forall|b: int| 0 <= b < r.keys.len() implies k <= #[trigger] r.keys@[b] by {
        assert(r.keys@.contains(r.keys@[b]));
        assert(r.all_keys().contains(r.keys@[b]));
    }
    assert(n.ordered()) by {
        assert(sorted(n.keys@)) by {
            assert forall|a: int, b: int| 0 <= a < b < n.keys.len() implies n.keys@[a] <= n.keys@[b] by {
                if b < nl {
                } else if b == nl {
                } else if a < nl {
                    assert(l.keys@[a] <= k);
                    assert(k <= r.keys@[b - nl - 1]);
                } else if a == nl {
                    assert(k <= r.keys@[b - nl - 1]);
                } else {
                    assert(n.keys@[a] == r.keys@[a - nl - 1]);
                    assert(n.keys@[b] == r.keys@[b - nl - 1]);
                }
            }
        }
        assert forall|a: int| 0 <= a < n.children.len() implies #[trigger] n.children@[a].ordered() by {
            if a <= nl {
                assert(lc[a].ordered());
            } else {
                assert(n.children@[nl + 1 + (a - nl - 1)] == rc[a - nl - 1]);
                assert(rc[a - nl - 1].ordered());
            }
        }
        assert forall|a: int, x: u32| 0 <= a < n.children.len() && #[trigger] n.children@[a].all_keys().contains(x) implies n.bounded_by(a, x) by {
            if a <= nl {
                assert(l.bounded_by(a, x));
                if a == nl {
                    assert(l.all_keys().contains(x));
                }
            } else {
                let b = a - nl - 1;
                assert(n.children@[nl + 1 + b] == rc[b]);
                assert(r.bounded_by(b, x));
                assert(r.all_keys().contains(x));
                if b > 0 {
                    assert(n.keys@[nl + 1 + (b - 1)] == r.keys@[b - 1]);
                }
            }
        }
        assert forall|a: int, x: u32| 0 <= a < n.children.len() && #[trigger] n.children@[a]@.contains(x) implies n.routes_to(a, x) by {
            if a <= nl {
                assert(l.routes_to(a, x));
                if a == nl {
                    assert(l@.contains(x));
                }
            } else {
                let b = a - nl - 1;
                assert(n.children@[nl + 1 + b] == rc[b]);
                assert(r.routes_to(b, x));
                assert(r@.contains(x));
                r.lemma_view_in_all_keys();
                if b > 0 {
                    assert(n.keys@[nl + 1 + (b - 1)] == r.keys@[b - 1]);
                }
            }
        }
    }
    assert(lc[0].height() + 1 == l.height());
    assert(n.height() == l.height());
    assert(n.balanced(m)) by {
        assert forall|a: int| 0 <= a < n.children.len() implies #[trigger] n.child_fits(a, m) by {
            if a <= nl {
                assert(lc[a] == n.children@[a]);
            } else {
                let b = a - nl - 1;
                assert(n.children@[nl + 1 + b] == rc[b]);
                assert(rc[0].height() + 1 == r.height());
            }
        }
        n.lemma_fits_balanced(m);
    }
    assert forall|x: u32| #[trigger] n@.contains(x) <==> l@.union(r@).contains(x) by {
        if n@.contains(x) {
            let a = choose|a: int| #![trigger n.children@[a]] 0 <= a < n.children.len() && n.children@[a]@.contains(x);
            if a <= nl {
                assert(lc[a]@.contains(x));
            } else {
                assert(n.children@[nl + 1 + (a - nl - 1)] == rc[a - nl - 1]);
                assert(rc[a - nl - 1]@.contains(x));
            }
        }
        if l@.contains(x) {
            let a = choose|a: int| #![trigger lc[a]] 0 <= a < lc.len() && lc[a]@.contains(x);
            assert(n.children@[a]@.contains(x));
        }
        if r@.contains(x) {
            let b = choose|b: int| #![trigger rc[b]] 0 <= b < rc.len() && rc[b]@.contains(x);
            assert(n.children@[nl + 1 + b]@.contains(x));
        }
    }
    assert forall|x: u32| #[trigger] n.all_keys().contains(x) <==> l.all_keys().union(r.all_keys()).insert(k).contains(x) by {
        if n.all_keys().contains(x) {
            if n.keys@.contains(x) {
                let a = choose|a: int| 0 <= a < n.keys.len() && n.keys@[a] == x;
                if a < nl {
                    assert(l.keys@.contains(x));
                } else if a > nl {
                    assert(r.keys@[a - nl - 1] == x);
                    assert(r.keys@.contains(x));
                }
            } else {
                let a = choose|a: int| #![trigger n.children@[a]] 0 <= a < n.children.len() && n.children@[a].all_keys().contains(x);
                if a <= nl {
                    assert(lc[a].all_keys().contains(x));
                } else {
                    assert(n.children@[nl + 1 + (a - nl - 1)] == rc[a - nl - 1]);
                    assert(rc[a - nl - 1].all_keys().contains(x));
                }
            }
        }
        if l.all_keys().contains(x) {
            if l.keys@.contains(x) {
                let a = choose|a: int| 0 <= a < l.keys.len() && l.keys@[a] == x;
                assert(n.keys@[a] == x);
            } else {
                let a = choose|a: int| #![trigger lc[a]] 0 <= a < lc.len() && lc[a].all_keys().contains(x);
                assert(n.children@[a].all_keys().contains(x));
            }
        }
        if r.all_keys().contains(x) {
            if r.keys@.contains(x) {
                let b = choose|b: int| 0 <= b < r.keys.len() && r.keys@[b] == x;
                assert(n.keys@[nl + 1 + b] == x);
            } else {
                let b = choose|b: int| #![trigger rc[b]] 0 <= b < rc.len() && rc[b].all_keys().contains(x);
                assert(n.children@[nl + 1 + b].all_keys().contains(x));
            }
        }
        if x == k {
            assert(n.keys@.contains(x));
        }
    }
    assert(n@ =~= l@.union(r@));
    assert(n.all_keys() =~= l.all_keys().union(r.all_keys()).insert(k));
}

/// `n` is the leaf `l` followed by the leaf `r`.
proof fn lemma_concat_leaves(l: Node, r: Node, k: u32, n: Node)
    requires
        l.ordered(),
        r.ordered(),
        l.is_leaf,
        r.is_leaf,
        forall|x: u32| l@.contains(x) ==> x < k,
        forall|x: u32| r@.contains(x) ==> k <= x,
        n.is_leaf,
        n.children.len() == 0,
        n.keys@ == l.keys@ + r.keys@,
        n.values@ == l.values@ + r.values@,
    ensures
        n.ordered(),
        n.height() == 0,
        n@ == l@.union(r@),
        n.all_keys() == n@,
{
    let nl = l.keys.len() as int;
    l.lemma_leaf_all_keys();
    r.lemma_leaf_all_keys();
    n.lemma_leaf_all_keys();
    assert forall|a: int| 0 <= a < nl implies #[trigger] l.keys@[a] < k by {
        assert(l.keys@.contains(l.keys@[a]));
        assert(l@.contains(l.keys@[a]));
    }
    assert forall|b: int| 0 <= b < r.keys.len() implies k <= #[trigger] r.keys@[b] by {
        assert(r.keys@.contains(r.keys@[b]));
        assert(r@.contains(r.keys@[b]));
    }
    assert(strictly_sorted(n.keys@)) by {
        assert forall|a: int, b: int| 0 <= a < b < n.keys.len() implies n.keys@[a] < n.keys@[b] by {
            if b >= nl && a < nl {
                assert(l.keys@[a] < k);
                assert(k <= r.keys@[b - nl]);
            }
        }
    }
    assert forall|x: u32| #[trigger] n.keys@.contains(x) <==> l.keys@.contains(x) || r.keys@.contains(x) by {
        if n.keys@.contains(x) {
            let a = choose|a: int| 0 <= a < n.keys.len() && n.keys@[a] == x;
            if a < nl {
                assert(l.keys@[a] == x);
            } else {
                assert(r.keys@[a - nl] == x);
            }
        }
        if l.keys@.contains(x) {
            let a = choose|a: int| 0 <= a < l.keys.len() && l.keys@[a] == x;
            assert(n.keys@[a] == x);
        }
        if r.keys@.contains(x) {
            let b = choose|b: int| 0 <= b < r.keys.len() && r.keys@[b] == x;
            assert(n.keys@[nl + b] == x);
        }
    }
    assert(n@ =~= l@.union(r@));
}

/// The number of leading elements of `keys` that are at most `key`, found by
/// binary search.
pub(crate) fn upper_bound(keys: &Vec<u32>, key: u32) -> (r: usize)
    requires
        sorted(keys@),
    ensures
        r <= keys.len(),
        forall|j: int| 0 <= j < r ==> keys@[j] <= key,
        forall|j: int| r <= j < keys.len() ==> key < keys@[j],
{
    let mut lo: usize = 0;
    let mut hi: usize = keys.len();
    while lo < hi
        invariant
            lo <= hi <= keys.len(),
            sorted(keys@),
            forall|j: int| 0 <= j < lo ==> keys@[j] <= key,
            forall|j: int| hi <= j < keys.len() ==> key < keys@[j],
        decreases hi - lo,
    {
        let mid = lo + (hi - lo) / 2;
        if keys[mid] <= key {
            lo = mid + 1;
        } else {
            hi = mid;
        }
    }
    lo
}

} // verus!
