//! An unbalanced binary search tree of `i32` values that keeps duplicates:
//! a value equal to a node's goes to its left.
use vstd::multiset::Multiset;
use vstd::prelude::*;

verus! {

struct Node {
    val: i32,
    left: Option<Box<Node>>,
    right: Option<Box<Node>>,
}

/// The values held below `link`, with their multiplicities.
spec fn values(link: Option<Box<Node>>) -> Multiset<i32>
    decreases link,
{
    match link {
        None => Multiset::empty(),
        Some(n) => values(n.left).add(values(n.right)).insert(n.val),
    }
}

/// Below every node, the left subtree holds values at most the node's and
/// the right subtree values above it.
spec fn search_ordered(link: Option<Box<Node>>) -> bool
    decreases link,
{
    match link {
        None => true,
        Some(n) => {
            &&& search_ordered(n.left)
            &&& search_ordered(n.right)
            &&& forall|x: i32| #[trigger] values(n.left).contains(x) ==> x <= n.val
            &&& forall|x: i32| #[trigger] values(n.right).contains(x) ==> n.val < x
        },
    }
}

/// The values of the nodes `d` levels below `link`, left to right.
spec fn values_at_depth(link: Option<Box<Node>>, d: nat) -> Seq<i32>
    decreases link,
{
    match link {
        None => Seq::empty(),
        Some(n) => if d == 0 {
            seq![n.val]
        } else {
            values_at_depth(n.left, (d - 1) as nat) + values_at_depth(n.right, (d - 1) as nat)
        },
    }
}

/// Appends to `out` the values of the nodes `d` levels below `link`, left
/// to right.
fn collect_depth(link: &Option<Box<Node>>, d: usize, out: &mut Vec<i32>)
    ensures
        final(out)@ == old(out)@ + values_at_depth(*link, d as nat),
    decreases *link,
{
    match link {
        None => {
            assert(out@ =~= old(out)@ + Seq::<i32>::empty());
        },
        Some(n) => {
            if d == 0 {
                out.push(n.val);
                assert(out@ =~= old(out)@ + seq![n.val]);
            } else {
                collect_depth(&n.left, d - 1, out);
                collect_depth(&n.right, d - 1, out);
                assert(out@ =~= old(out)@ + values_at_depth(*link, d as nat));
            }
        },
    }
}

/// Adds `val` below `link`, as a new leaf.
fn insert_below(link: &mut Option<Box<Node>>, val: i32)
    requires
        search_ordered(*old(link)),
    ensures
        search_ordered(*final(link)),
        values(*final(link)) =~= values(*old(link)).insert(val),
    decreases *old(link),
{
    match link.take() {
        None => {
            *link = Some(Box::new(Node { val, left: None, right: None }));
        },
        Some(mut n) => {
            let ghost before = *n;
            if val > n.val {
                insert_below(&mut n.right, val);
                proof {
                    assert forall|x: i32| #[trigger] values(n.right).contains(x) implies n.val < x by {
                        if x != val {
                            assert(values(before.right).contains(x));
                        }
                    }
                }
            } else {
                insert_below(&mut n.left, val);
                proof {
                    assert forall|x: i32| #[trigger] values(n.left).contains(x) implies x <= n.val by {
                        if x != val {
                            assert(values(before.left).contains(x));
                        }
                    }
                }
            }
            *link = Some(n);
        },
    }
}

/// Removes the largest value below `link`, which holds at least one, and
/// returns it.
fn take_largest(link: &mut Option<Box<Node>>) -> (r: i32)
    requires
        old(link).is_some(),
        search_ordered(*old(link)),
    ensures
        search_ordered(*final(link)),
        values(*old(link)) =~= values(*final(link)).insert(r),
        forall|x: i32| #[trigger] values(*old(link)).contains(x) ==> x <= r,
    decreases *old(link),
{
    let mut n = link.take().unwrap();
    let ghost before = *n;
    if n.right.is_none() {
        let largest = n.val;
        *link = n.left;
        proof {
            assert(values(before.right) =~= Multiset::empty());
            assert forall|x: i32| #[trigger] values(*old(link)).contains(x) implies x <= largest by {
                if x != largest {
                    assert(values(before.left).contains(x));
                }
            }
        }
        largest
    } else {
        let largest = take_largest(&mut n.right);
        proof {
            assert(values(before.right).contains(largest));
            assert forall|x: i32| #[trigger] values(n.right).contains(x) implies n.val < x by {
                assert(values(before.right).contains(x));
            }
            assert forall|x: i32| #[trigger] values(*old(link)).contains(x) implies x <= largest by {
                if values(before.left).contains(x) {
                } else if values(before.right).contains(x) {
                } else {
                    assert(x == before.val);
                }
            }
        }
        *link = Some(n);
        largest
    }
}

/// Removes one occurrence of `val` from below `link`; tells whether there
/// was one.
fn remove_below(link: &mut Option<Box<Node>>, val: i32) -> (found: bool)
    requires
        search_ordered(*old(link)),
    ensures
        search_ordered(*final(link)),
        found == values(*old(link)).contains(val),
        values(*final(link)) =~= values(*old(link)).remove(val),
    decreases *old(link),
{
    match link.take() {
        None => false,
        Some(mut n) => {
            let ghost before = *n;
            if val < n.val {
                proof {
                    assert(!values(n.right).contains(val));
                }
                let found = remove_below(&mut n.left, val);
                proof {
                    assert forall|x: i32| #[trigger] values(n.left).contains(x) implies x <= n.val by {
                        assert(values(before.left).contains(x));
                    }
                }
                *link = Some(n);
                found
            } else if val > n.val {
                proof {
                    assert(!values(n.left).contains(val));
                }
                let found = remove_below(&mut n.right, val);
                proof {
                    assert forall|x: i32| #[trigger] values(n.right).contains(x) implies n.val < x by {
                        assert(values(before.right).contains(x));
                    }
                }
                *link = Some(n);
                found
            } else if n.left.is_none() {
                *link = n.right;
                true
            } else if n.right.is_none() {
                *link = n.left;
                true
            } else {
                let largest = take_largest(&mut n.left);
                n.val = largest;
                proof {
                    assert(values(before.left).contains(largest));
                    assert(largest <= before.val);
                    assert forall|x: i32| #[trigger] values(n.left).contains(x) implies x <= largest by {
                        assert(values(before.left).contains(x));
                    }
                }
                *link = Some(n);
                true
            }
        },
    }
}

/// A binary search tree of `i32` values; equal values may occur more than
/// once.
pub struct BSTree {
    root: Option<Box<Node>>,
}

impl BSTree {
    /// The values in the tree, with their multiplicities.
    pub closed spec fn view(&self) -> Multiset<i32> {
        values(self.root)
    }

    /// Every node's left subtree holds values at most its own, its right
    /// subtree values above it.
    pub closed spec fn wf(&self) -> bool {
        search_ordered(self.root)
    }

    /// An empty tree.
    pub fn new() -> (t: BSTree)
        ensures
            t.wf(),
            t@ == Multiset::<i32>::empty(),
    {
        BSTree { root: None }
    }

    /// Adds one occurrence of `val` and returns it.
    pub fn insert(&mut self, val: i32) -> (r: i32)
        requires
            old(self).wf(),
        ensures
            final(self).wf(),
            final(self)@ == old(self)@.insert(val),
            r == val,
    {
        insert_below(&mut self.root, val);
        val
    }

    /// Removes one occurrence of `val`; tells whether there was one.
    pub fn remove(&mut self, val: i32) -> (r: bool)
        requires
            old(self).wf(),
        ensures
            final(self).wf(),
            final(self)@ == old(self)@.remove(val),
            r == old(self)@.contains(val),
    {
        remove_below(&mut self.root, val)
    }

    /// The values of the nodes at depth `depth`, left to right; the root is
    /// at depth 0.
    pub closed spec fn values_at_depth(&self, depth: nat) -> Seq<i32> {
        values_at_depth(self.root, depth)
    }

    /// Lists, left to right, the values of the nodes at depth `depth`: one
    /// stretch of a breadth-first listing of the tree.
    pub fn level(&self, depth: usize) -> (r: Vec<i32>)
        ensures
            r@ == self.values_at_depth(depth as nat),
    {
        let mut out: Vec<i32> = Vec::new();
        collect_depth(&self.root, depth, &mut out);
        assert(out@ =~= self.values_at_depth(depth as nat));
        out
    }

    /// Looks `val` up: a reference to an equal value in the tree, or `None`.
    pub fn get(&self, val: &i32) -> (r: Option<&i32>)
        requires
            self.wf(),
        ensures
            r is Some <==> self@.contains(*val),
            r matches Some(v) ==> *v == *val,
    {
        let mut cur = &self.root;
        loop
            invariant
                search_ordered(*cur),
                self@.contains(*val) <==> values(*cur).contains(*val),
            decreases *cur,
        {
            match cur {
                None => {
                    return None;
                },
                Some(n) => {
                    if n.val == *val {
                        return Some(&n.val);
                    }
                    if n.val > *val {
                        proof {
                            assert(!values(n.right).contains(*val));
                        }
                        cur = &n.left;
                    } else {
                        proof {
                            assert(!values(n.left).contains(*val));
                        }
                        cur = &n.right;
                    }
                },
            }
        }
    }
}

} // verus!
