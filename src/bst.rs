//! An unbalanced binary search tree that holds each value at most once.
use vstd::prelude::*;
use crate::linked_list::LinkedList;
use crate::order::TotalOrder;

verus! {

/// A binary search tree of distinct values.
///
/// Every value in a node's left subtree comes before the node's value, and
/// every value in its right subtree comes after it. Its view is the set of
/// values it holds.
pub struct BinarySearchTree<T: TotalOrder> {
    root: Option<Box<Node<T>>>,
}

/// A node of a `BinarySearchTree`: one value and the two subtrees it owns.
pub struct Node<T: TotalOrder> {
    pub value: T,
    pub left_branch: Option<Box<Node<T>>>,
    pub right_branch: Option<Box<Node<T>>>,
}

/// The order in which a traversal lists the values of a tree.
pub enum TreeTraversalOrders {
    /// Left subtree, then the node, then the right subtree.
    Inorder,
    /// The node, then the left subtree, then the right subtree.
    Preorder,
    /// Left subtree, then right subtree, then the node.
    Postorder,
}

/// The values behind a sequence of references.
pub open spec fn peeked<T>(s: Seq<&T>) -> Seq<T> {
    s.map_values(|r: &T| *r)
}

/// Each value of `s` comes strictly before every later one.
pub open spec fn ascending<T: TotalOrder>(s: Seq<T>) -> bool {
    forall|i: int, j: int| 0 <= i < j < s.len() ==> (#[trigger] s[i]).less(#[trigger] s[j])
}

impl<T: TotalOrder> Node<T> {
    /// The values held by a (possibly absent) subtree.
    pub open spec fn values_of(opt: Option<Box<Node<T>>>) -> Set<T>
        decreases opt,
    {
        match opt {
            None => Set::empty(),
            Some(n) => Self::values_of(n.left_branch).union(Self::values_of(n.right_branch)).insert(
                n.value,
            ),
        }
    }

    /// Search-tree order holds at every node of a (possibly absent) subtree.
    pub open spec fn ordered_of(opt: Option<Box<Node<T>>>) -> bool
        decreases opt,
    {
        match opt {
            None => true,
            Some(n) => {
                &&& forall|x: T| #[trigger]
                    Self::values_of(n.left_branch).contains(x) ==> x.less(n.value)
                &&& forall|x: T| #[trigger]
                    Self::values_of(n.right_branch).contains(x) ==> n.value.less(x)
                &&& Self::ordered_of(n.left_branch)
                &&& Self::ordered_of(n.right_branch)
            },
        }
    }

    /// The number of nodes on the longest downward path; 0 for an absent subtree.
    pub open spec fn height_of(opt: Option<Box<Node<T>>>) -> nat
        decreases opt,
    {
        match opt {
            None => 0,
            Some(n) => {
                let hl = Self::height_of(n.left_branch);
                let hr = Self::height_of(n.right_branch);
                1 + if hl >= hr {
                    hl
                } else {
                    hr
                }
            },
        }
    }

    /// Left subtree, node, right subtree.
    pub open spec fn inorder_of(opt: Option<Box<Node<T>>>) -> Seq<T>
        decreases opt,
    {
        match opt {
            None => Seq::empty(),
            Some(n) => Self::inorder_of(n.left_branch) + seq![n.value] + Self::inorder_of(
                n.right_branch,
            ),
        }
    }

    /// Node, left subtree, right subtree.
    pub open spec fn preorder_of(opt: Option<Box<Node<T>>>) -> Seq<T>
        decreases opt,
    {
        match opt {
            None => Seq::empty(),
            Some(n) => seq![n.value] + Self::preorder_of(n.left_branch) + Self::preorder_of(
                n.right_branch,
            ),
        }
    }

    /// Left subtree, right subtree, node.
    pub open spec fn postorder_of(opt: Option<Box<Node<T>>>) -> Seq<T>
        decreases opt,
    {
        match opt {
            None => Seq::empty(),
            Some(n) => Self::postorder_of(n.left_branch) + Self::postorder_of(n.right_branch)
                + seq![n.value],
        }
    }

    pub open spec fn values(self) -> Set<T> {
        Self::values_of(self.left_branch).union(Self::values_of(self.right_branch)).insert(
            self.value,
        )
    }

    pub open spec fn ordered(self) -> bool {
        &&& forall|x: T| #[trigger] Self::values_of(self.left_branch).contains(x) ==> x.less(self.value)
        &&& forall|x: T| #[trigger] Self::values_of(self.right_branch).contains(x) ==> self.value.less(x)
        &&& Self::ordered_of(self.left_branch)
        &&& Self::ordered_of(self.right_branch)
    }

    pub open spec fn height(self) -> nat {
        let hl = Self::height_of(self.left_branch);
        let hr = Self::height_of(self.right_branch);
        1 + if hl >= hr {
            hl
        } else {
            hr
        }
    }

    /// The value of the last node reached from `n` by following left children:
    /// in an ordered subtree, its least value.
    pub open spec fn leftmost_of(n: Node<T>) -> T
        decreases n,
    {
        match n.left_branch {
            None => n.value,
            Some(smaller) => Self::leftmost_of(*smaller),
        }
    }

    /// `n` with the value of its leftmost node replaced by `v`.
    pub open spec fn with_leftmost(n: Node<T>, v: T) -> Node<T>
        decreases n,
    {
        match n.left_branch {
            None => Node { value: v, left_branch: None, right_branch: n.right_branch },
            Some(smaller) => Node {
                value: n.value,
                left_branch: Some(Box::new(Self::with_leftmost(*smaller, v))),
                right_branch: n.right_branch,
            },
        }
    }

    /// The subtree after adding `v` by descending from the root: an absent
    /// subtree becomes a leaf holding `v`; a smaller value goes into the left
    /// subtree, a greater one into the right; an equal one changes nothing.
    pub open spec fn inserted(opt: Option<Box<Node<T>>>, v: T) -> Option<Box<Node<T>>>
        decreases opt,
    {
        match opt {
            None => Some(Box::new(Node { value: v, left_branch: None, right_branch: None })),
            Some(n) => if v == n.value {
                opt
            } else if v.less(n.value) {
                Some(
                    Box::new(
                        Node {
                            value: n.value,
                            left_branch: Self::inserted(n.left_branch, v),
                            right_branch: n.right_branch,
                        },
                    ),
                )
            } else {
                Some(
                    Box::new(
                        Node {
                            value: n.value,
                            left_branch: n.left_branch,
                            right_branch: Self::inserted(n.right_branch, v),
                        },
                    ),
                )
            },
        }
    }

    /// The subtree after removing `v` by descending from the root. A smaller
    /// value is removed from the left subtree and a greater one from the right,
    /// the node keeping its value and its other subtree; a value not found
    /// changes nothing. The node holding `v` gives way to nothing when it is a
    /// leaf, to its only child when it has one, and with two children it stays,
    /// takes the least value of its right subtree, and that value is removed
    /// from the right subtree.
    pub open spec fn removed(opt: Option<Box<Node<T>>>, v: T) -> Option<Box<Node<T>>>
        decreases opt,
    {
        match opt {
            None => None,
            Some(n) => if v == n.value {
                match (n.left_branch, n.right_branch) {
                    (None, right) => right,
                    (left, None) => left,
                    (left, Some(right)) => {
                        let successor = Self::leftmost_of(*right);
                        Some(
                            Box::new(
                                Node {
                                    value: successor,
                                    left_branch: left,
                                    right_branch: Self::removed(Some(right), successor),
                                },
                            ),
                        )
                    },
                }
            } else if v.less(n.value) {
                Some(
                    Box::new(
                        Node {
                            value: n.value,
                            left_branch: Self::removed(n.left_branch, v),
                            right_branch: n.right_branch,
                        },
                    ),
                )
            } else {
                Some(
                    Box::new(
                        Node {
                            value: n.value,
                            left_branch: n.left_branch,
                            right_branch: Self::removed(n.right_branch, v),
                        },
                    ),
                )
            },
        }
    }

    /// `x` comes before `y`, so they differ and `y` does not come before `x`.
    proof fn lemma_less_asymmetric(x: T, y: T)
        requires
            x.less(y),
        ensures
            !y.less(x),
            x != y,
    {
        T::lemma_irreflexive(x);
        if y.less(x) {
            T::lemma_transitive(x, y, x);
        }
    }

    /// The values of a subtree form a finite set; in an ordered subtree the
    /// node's value and its two subtrees' values are pairwise apart, so the
    /// sizes add up.
    proof fn lemma_size(opt: Option<Box<Node<T>>>)
        ensures
            Self::values_of(opt).finite(),
            opt.is_none() <==> Self::values_of(opt).len() == 0,
            Self::ordered_of(opt) && opt.is_some() ==> Self::values_of(opt).len() == Self::values_of(
                opt.unwrap().left_branch,
            ).len() + Self::values_of(opt.unwrap().right_branch).len() + 1,
        decreases opt,
    {
        if let Some(n) = opt {
            let left = Self::values_of(n.left_branch);
            let right = Self::values_of(n.right_branch);
            Self::lemma_size(n.left_branch);
            Self::lemma_size(n.right_branch);
            vstd::set_lib::lemma_set_union_finite_iff(left, right);
            assert(Self::values_of(opt).contains(n.value));
            if Self::ordered_of(opt) {
                assert forall|x: T| left.contains(x) implies !right.contains(x) by {
                    if right.contains(x) {
                        T::lemma_transitive(x, n.value, x);
                        T::lemma_irreflexive(x);
                    }
                }
                vstd::set_lib::lemma_set_disjoint_lens(left, right);
                if left.union(right).contains(n.value) {
                    T::lemma_irreflexive(n.value);
                }
            }
        }
    }

    /// An ordered subtree is no taller than the number of values it holds.
    proof fn lemma_height_at_most_size(opt: Option<Box<Node<T>>>)
        requires
            Self::ordered_of(opt),
        ensures
            Self::height_of(opt) <= Self::values_of(opt).len(),
        decreases opt,
    {
        Self::lemma_size(opt);
        if let Some(n) = opt {
            Self::lemma_height_at_most_size(n.left_branch);
            Self::lemma_height_at_most_size(n.right_branch);
        }
    }

    /// The inorder listing of an ordered subtree is ascending and holds exactly
    /// the subtree's values.
    proof fn lemma_inorder_ascending(opt: Option<Box<Node<T>>>)
        requires
            Self::ordered_of(opt),
        ensures
            ascending(Self::inorder_of(opt)),
            forall|x: T| #[trigger]
                Self::inorder_of(opt).contains(x) <==> Self::values_of(opt).contains(x),
        decreases opt,
    {
        if let Some(n) = opt {
            Self::lemma_inorder_ascending(n.left_branch);
            Self::lemma_inorder_ascending(n.right_branch);
            let l = Self::inorder_of(n.left_branch);
            let r = Self::inorder_of(n.right_branch);
            let s = Self::inorder_of(opt);
            assert(s == l + seq![n.value] + r);
            assert forall|i: int, j: int| 0 <= i < j < s.len() implies (#[trigger] s[i]).less(
                #[trigger] s[j],
            ) by {
                if j < l.len() {
                    assert(s[i] == l[i] && s[j] == l[j]);
                } else if i > l.len() {
                    assert(s[i] == r[i - l.len() - 1] && s[j] == r[j - l.len() - 1]);
                } else if i < l.len() {
                    assert(l.contains(s[i]));
                    if j > l.len() {
                        assert(r.contains(s[j]));
                        T::lemma_transitive(s[i], n.value, s[j]);
                    }
                } else {
                    assert(r.contains(s[j]));
                }
            }
            assert forall|x: T| #[trigger] s.contains(x) implies Self::values_of(opt).contains(x) by {
                let i = choose|i: int| 0 <= i < s.len() && s[i] == x;
                if i < l.len() {
                    assert(l.contains(x));
                } else if i > l.len() {
                    assert(r[i - l.len() - 1] == x);
                    assert(r.contains(x));
                }
            }
            assert forall|x: T| #[trigger] Self::values_of(opt).contains(x) implies s.contains(x) by {
                if l.contains(x) {
                    let i = choose|i: int| 0 <= i < l.len() && l[i] == x;
                    assert(s[i] == x);
                } else if r.contains(x) {
                    let i = choose|i: int| 0 <= i < r.len() && r[i] == x;
                    assert(s[i + l.len() + 1] == x);
                } else {
                    assert(s[l.len() as int] == x);
                }
            }
        }
    }

    /// The three listings of a subtree hold the same values, each as often.
    proof fn lemma_same_multiset(opt: Option<Box<Node<T>>>)
        ensures
            Self::inorder_of(opt).to_multiset() == Self::preorder_of(opt).to_multiset(),
            Self::inorder_of(opt).to_multiset() == Self::postorder_of(opt).to_multiset(),
        decreases opt,
    {
        broadcast use vstd::seq_lib::lemma_multiset_commutative;

        match opt {
            None => {},
            Some(n) => {
                Self::lemma_same_multiset(n.left_branch);
                Self::lemma_same_multiset(n.right_branch);
                let v = seq![n.value];
                let il = Self::inorder_of(n.left_branch);
                let ir = Self::inorder_of(n.right_branch);
                let pl = Self::preorder_of(n.left_branch);
                let pr = Self::preorder_of(n.right_branch);
                let ql = Self::postorder_of(n.left_branch);
                let qr = Self::postorder_of(n.right_branch);
                assert((il + v + ir).to_multiset() =~= il.to_multiset().add(v.to_multiset()).add(
                    ir.to_multiset(),
                ));
                assert((v + pl + pr).to_multiset() =~= v.to_multiset().add(pl.to_multiset()).add(
                    pr.to_multiset(),
                ));
                assert((ql + qr + v).to_multiset() =~= ql.to_multiset().add(qr.to_multiset()).add(
                    v.to_multiset(),
                ));
                assert(Self::inorder_of(opt).to_multiset() =~= Self::preorder_of(opt).to_multiset());
                assert(Self::inorder_of(opt).to_multiset() =~= Self::postorder_of(opt).to_multiset());
            },
        }
    }

    /// A node `f` that meets the node-level description of adding `v` to `n`
    /// is what adding `v` to the subtree `n` gives.
    proof fn lemma_inserted_node(n: Node<T>, f: Node<T>, v: T)
        requires
            f.value == n.value,
            v == n.value ==> f == n,
            v.less(n.value) ==> f.left_branch == Self::inserted(n.left_branch, v)
                && f.right_branch == n.right_branch,
            n.value.less(v) ==> f.right_branch == Self::inserted(n.right_branch, v)
                && f.left_branch == n.left_branch,
        ensures
            Some(Box::new(f)) == Self::inserted(Some(Box::new(n)), v),
    {
        T::lemma_connected(v, n.value);
        if v.less(n.value) {
            Self::lemma_less_asymmetric(v, n.value);
        } else if n.value.less(v) {
            Self::lemma_less_asymmetric(n.value, v);
        }
    }

    /// The leftmost value of a node is one of its values.
    proof fn lemma_leftmost_held(n: Node<T>)
        ensures
            n.values().contains(Self::leftmost_of(n)),
        decreases n,
    {
        if let Some(smaller) = n.left_branch {
            Self::lemma_leftmost_held(*smaller);
        }
    }

    /// Putting `v`, which comes before every value of `n`, in place of the
    /// leftmost value and then removing `v` gives the same subtree as removing
    /// the leftmost value from `n`.
    proof fn lemma_removed_after_swap(n: Node<T>, v: T)
        requires
            n.ordered(),
            forall|x: T| #[trigger] n.values().contains(x) ==> v.less(x),
        ensures
            Self::removed(Some(Box::new(Self::with_leftmost(n, v))), v) == Self::removed(
                Some(Box::new(n)),
                Self::leftmost_of(n),
            ),
        decreases n,
    {
        if let Some(smaller) = n.left_branch {
            let m = Self::leftmost_of(*smaller);
            Self::lemma_leftmost_held(*smaller);
            assert(Self::values_of(n.left_branch).contains(m));
            Self::lemma_less_asymmetric(m, n.value);
            assert(n.values().contains(n.value));
            Self::lemma_less_asymmetric(v, n.value);
            assert forall|x: T| #[trigger] smaller.values().contains(x) implies v.less(x) by {
                assert(n.values().contains(x));
            }
            Self::lemma_removed_after_swap(*smaller, v);
        }
    }

    /// Adding a value makes a subtree at most one level taller, and never lower.
    proof fn lemma_inserted_height(opt: Option<Box<Node<T>>>, v: T)
        ensures
            Self::height_of(opt) <= Self::height_of(Self::inserted(opt, v)) <= Self::height_of(opt)
                + 1,
        decreases opt,
    {
        if let Some(n) = opt {
            Self::lemma_inserted_height(n.left_branch, v);
            Self::lemma_inserted_height(n.right_branch, v);
        }
    }

    /// Removing a value never makes a subtree taller.
    proof fn lemma_removed_height(opt: Option<Box<Node<T>>>, v: T)
        ensures
            Self::height_of(Self::removed(opt, v)) <= Self::height_of(opt),
        decreases opt,
    {
        if let Some(n) = opt {
            Self::lemma_removed_height(n.left_branch, v);
            Self::lemma_removed_height(n.right_branch, v);
            if let Some(right) = n.right_branch {
                Self::lemma_removed_height(Some(right), Self::leftmost_of(*right));
            }
        }
    }

    /// Removing a value just added to an ordered subtree that did not hold it
    /// gives back the subtree as it was.
    proof fn lemma_removed_inserted(opt: Option<Box<Node<T>>>, v: T)
        requires
            Self::ordered_of(opt),
            !Self::values_of(opt).contains(v),
        ensures
            Self::removed(Self::inserted(opt, v), v) == opt,
        decreases opt,
    {
        if let Some(n) = opt {
            T::lemma_connected(v, n.value);
            if v.less(n.value) {
                Self::lemma_removed_inserted(n.left_branch, v);
            } else {
                Self::lemma_less_asymmetric(n.value, v);
                Self::lemma_removed_inserted(n.right_branch, v);
            }
        }
    }

    /// A new node holding `value` and no children.
    fn new(value: T) -> (r: Node<T>)
        ensures
            r.value == value,
            r.left_branch.is_none(),
            r.right_branch.is_none(),
    {
        Node { value, left_branch: None, right_branch: None }
    }

    /// The value held in this node.
    fn peek_value(&self) -> (r: &T)
        ensures
            *r == self.value,
    {
        &self.value
    }

    /// Place `value` in the subtree below this node, where search order puts it;
    /// a value already present leaves the subtree as it was. The node keeps its
    /// value, and only the subtree on `value`'s side changes.
    fn add_value_as_child(&mut self, value: T)
        requires
            old(self).ordered(),
        ensures
            final(self).ordered(),
            final(self).values() == old(self).values().insert(value),
            old(self).values().contains(value) ==> *final(self) == *old(self),
            final(self).value == old(self).value,
            value.less(old(self).value) ==> final(self).left_branch == Self::inserted(
                old(self).left_branch,
                value,
            ) && final(self).right_branch == old(self).right_branch,
            old(self).value.less(value) ==> final(self).right_branch == Self::inserted(
                old(self).right_branch,
                value,
            ) && final(self).left_branch == old(self).left_branch,
        decreases *old(self),
    {
        match value.compare(&self.value) {
            std::cmp::Ordering::Less => {
                proof {
                    Self::lemma_less_asymmetric(value, self.value);
                }
                let ghost before = self.left_branch;
                if let Some(boxed_node) = &mut self.left_branch {
                    boxed_node.add_value_as_child(value);
                } else {
                    self.left_branch = Some(Box::new(Node::new(value)));
                }
                proof {
                    if let Some(b) = before {
                        Self::lemma_inserted_node(*b, *self.left_branch.unwrap(), value);
                    }
                }
            },
            std::cmp::Ordering::Greater => {
                proof {
                    Self::lemma_less_asymmetric(self.value, value);
                }
                let ghost before = self.right_branch;
                if let Some(boxed_node) = &mut self.right_branch {
                    boxed_node.add_value_as_child(value);
                } else {
                    self.right_branch = Some(Box::new(Node::new(value)));
                }
                proof {
                    if let Some(b) = before {
                        Self::lemma_inserted_node(*b, *self.right_branch.unwrap(), value);
                    }
                }
            },
            std::cmp::Ordering::Equal => {},
        }
        assert(final(self).values() =~= old(self).values().insert(value));
    }

    /// Put `value`, which comes before every value below this node, in the place
    /// of the least value below this node, and hand that least value back in
    /// `value`. The shape of the subtree does not change.
    fn swap_minimum_value(&mut self, value: &mut T)
        requires
            old(self).ordered(),
            forall|x: T| #[trigger] old(self).values().contains(x) ==> old(value).less(x),
        ensures
            final(self).ordered(),
            final(self).height() == old(self).height(),
            old(self).values().contains(*final(value)),
            forall|x: T| #[trigger]
                old(self).values().contains(x) ==> x == *final(value) || final(value).less(x),
            final(self).values() == old(self).values().remove(*final(value)).insert(*old(value)),
            *final(value) == Self::leftmost_of(*old(self)),
            *final(self) == Self::with_leftmost(*old(self), *old(value)),
        decreases *old(self),
    {
        if let Some(smaller) = &mut self.left_branch {
            assert forall|x: T| #[trigger] smaller.values().contains(x) implies value.less(x) by {
                assert(old(self).values().contains(x));
            }
            smaller.swap_minimum_value(value);
            proof {
                let m = *value;
                assert(Self::values_of(old(self).left_branch).contains(m));
                assert(old(self).values().contains(self.value));
                assert forall|x: T| #[trigger] Self::values_of(self.left_branch).contains(x) implies x.less(self.value) by {
                    if x != *old(value) {
                        assert(Self::values_of(old(self).left_branch).contains(x));
                    }
                }
                Self::lemma_less_asymmetric(m, self.value);
                if Self::values_of(self.right_branch).contains(m) {
                    T::lemma_transitive(m, self.value, m);
                    T::lemma_irreflexive(m);
                }
                assert forall|x: T| #[trigger] old(self).values().contains(x) implies x == m
                    || m.less(x) by {
                    if Self::values_of(self.right_branch).contains(x) {
                        T::lemma_transitive(m, self.value, x);
                    }
                }
            }
        } else {
            std::mem::swap(&mut self.value, value);
            proof {
                T::lemma_irreflexive(*value);
                assert forall|x: T| #[trigger] Self::values_of(self.right_branch).contains(x) implies self.value.less(x) by {
                    assert(old(self).values().contains(x));
                }
            }
        }
        assert(final(self).values() =~= old(self).values().remove(*final(value)).insert(*old(value)));
    }

    /// Remove `value` from the subtree rooted at `node`, and return what takes
    /// the subtree's place.
    fn remove_value_if_child(node: Box<Node<T>>, value: &T) -> (r: Option<Box<Node<T>>>)
        requires
            node.ordered(),
        ensures
            Self::ordered_of(r),
            Self::values_of(r) == node.values().remove(*value),
            !node.values().contains(*value) ==> r == Some(node),
            r == Self::removed(Some(node), *value),
            value.less(node.value) ==> r.is_some() && r.unwrap().value == node.value
                && r.unwrap().right_branch == node.right_branch && r.unwrap().left_branch
                == Self::removed(node.left_branch, *value),
            node.value.less(*value) ==> r.is_some() && r.unwrap().value == node.value
                && r.unwrap().left_branch == node.left_branch && r.unwrap().right_branch
                == Self::removed(node.right_branch, *value),
        decreases node.height(), 1nat,
    {
        let ghost before = node;
        let mut node = node;
        match value.compare(&node.value) {
            std::cmp::Ordering::Less => {
                proof {
                    Self::lemma_less_asymmetric(*value, node.value);
                    if Self::values_of(node.right_branch).contains(*value) {
                        Self::lemma_less_asymmetric(node.value, *value);
                    }
                }
                if let Some(left) = node.left_branch.take() {
                    node.left_branch = Self::remove_value_if_child(left, value);
                }
                let r = Some(node);
                assert(Self::values_of(r) =~= before.values().remove(*value));
                r
            },
            std::cmp::Ordering::Greater => {
                proof {
                    Self::lemma_less_asymmetric(node.value, *value);
                    if Self::values_of(node.left_branch).contains(*value) {
                        Self::lemma_less_asymmetric(*value, node.value);
                    }
                }
                if let Some(right) = node.right_branch.take() {
                    node.right_branch = Self::remove_value_if_child(right, value);
                }
                let r = Some(node);
                assert(Self::values_of(r) =~= before.values().remove(*value));
                r
            },
            std::cmp::Ordering::Equal => Self::remove_self_from_tree(node, value),
        }
    }

    /// Remove `node` itself, whose value is `value`, from its subtree, and
    /// return what takes the subtree's place: nothing for a leaf, the only
    /// child for a node with one, and for a node with two the same node holding
    /// its in-order successor, which is then removed from the right subtree.
    fn remove_self_from_tree(node: Box<Node<T>>, value: &T) -> (r: Option<Box<Node<T>>>)
        requires
            node.ordered(),
            node.value == *value,
        ensures
            Self::ordered_of(r),
            Self::values_of(r) == node.values().remove(*value),
            r == Self::removed(Some(node), *value),
            node.left_branch.is_none() ==> r == node.right_branch,
            node.left_branch.is_some() && node.right_branch.is_none() ==> r == node.left_branch,
            node.left_branch.is_some() && node.right_branch.is_some() ==> r.is_some()
                && r.unwrap().value == Self::leftmost_of(*node.right_branch.unwrap())
                && r.unwrap().left_branch == node.left_branch && r.unwrap().right_branch
                == Self::removed(
                node.right_branch,
                Self::leftmost_of(*node.right_branch.unwrap()),
            ),
        decreases node.height(), 0nat,
    {
        let ghost before = node;
        let mut node = node;
        proof {
            T::lemma_irreflexive(*value);
        }
        if node.left_branch.is_none() {
            let r = node.right_branch.take();
            assert(Self::values_of(r) =~= before.values().remove(*value));
            r
        } else if node.right_branch.is_none() {
            let r = node.left_branch.take();
            assert(Self::values_of(r) =~= before.values().remove(*value));
            r
        } else {
            let mut right = node.right_branch.take().unwrap();
            let ghost right_before = *right;
            assert forall|x: T| #[trigger] right.values().contains(x) implies value.less(x) by {
                assert(Self::values_of(before.right_branch).contains(x));
            }
            right.swap_minimum_value(&mut node.value);
            let ghost successor = node.value;
            assert(Self::values_of(before.right_branch).contains(successor));
            node.right_branch = Self::remove_value_if_child(right, value);
            proof {
                Self::lemma_removed_after_swap(right_before, *value);
                assert forall|x: T| #[trigger] Self::values_of(node.left_branch).contains(x) implies x.less(successor) by {
                    assert(Self::values_of(before.left_branch).contains(x));
                    T::lemma_transitive(x, *value, successor);
                }
                assert forall|x: T| #[trigger] Self::values_of(node.right_branch).contains(x) implies successor.less(x) by {
                    assert(right_before.values().contains(x));
                }
            }
            let r = Some(node);
            assert(Self::values_of(r) =~= before.values().remove(*value));
            r
        }
    }

    /// Whether `value` is held in the subtree `opt_node`, found by descending
    /// along the search path.
    fn find_value(opt_node: &Option<Box<Node<T>>>, value: &T) -> (r: bool)
        requires
            Self::ordered_of(*opt_node),
        ensures
            r == Self::values_of(*opt_node).contains(*value),
        decreases opt_node,
    {
        match opt_node {
            None => false,
            Some(node) => match value.compare(&node.value) {
                std::cmp::Ordering::Less => {
                    proof {
                        Self::lemma_less_asymmetric(*value, node.value);
                        if Self::values_of(node.right_branch).contains(*value) {
                            Self::lemma_less_asymmetric(node.value, *value);
                        }
                    }
                    Self::find_value(&node.left_branch, value)
                },
                std::cmp::Ordering::Greater => {
                    proof {
                        Self::lemma_less_asymmetric(node.value, *value);
                        if Self::values_of(node.left_branch).contains(*value) {
                            Self::lemma_less_asymmetric(*value, node.value);
                        }
                    }
                    Self::find_value(&node.right_branch, value)
                },
                std::cmp::Ordering::Equal => true,
            },
        }
    }

    /// The node holding the least value below this node: the last one reached
    /// by following left children.
    fn find_minimum_child_below(&self) -> (r: &Node<T>)
        requires
            self.ordered(),
        ensures
            self.values().contains(r.value),
            forall|x: T| #[trigger] self.values().contains(x) ==> x == r.value || r.value.less(x),
            r.left_branch.is_none(),
            r.value == Self::leftmost_of(*self),
        decreases self,
    {
        match &self.left_branch {
            None => {
                proof {
                    assert forall|x: T| #[trigger] self.values().contains(x) implies x == self.value
                        || self.value.less(x) by {
                        if x != self.value {
                            assert(Self::values_of(self.right_branch).contains(x));
                        }
                    }
                }
                self
            },
            Some(smaller) => {
                let r = smaller.find_minimum_child_below();
                proof {
                    let m = r.value;
                    assert(Self::values_of(self.left_branch).contains(m));
                    assert forall|x: T| #[trigger] self.values().contains(x) implies x == m || m.less(
                        x,
                    ) by {
                        if Self::values_of(self.right_branch).contains(x) {
                            T::lemma_transitive(m, self.value, x);
                        } else if x != self.value {
                            assert(smaller.values().contains(x));
                        }
                    }
                }
                r
            },
        }
    }

    /// The height of the subtree `opt_node`.
    fn height_below(opt_node: &Option<Box<Node<T>>>) -> (r: usize)
        requires
            Self::height_of(*opt_node) <= usize::MAX,
        ensures
            r == Self::height_of(*opt_node),
        decreases opt_node,
    {
        match opt_node {
            None => 0,
            Some(node) => {
                let hl = Self::height_below(&node.left_branch);
                let hr = Self::height_below(&node.right_branch);
                if hl >= hr {
                    hl + 1
                } else {
                    hr + 1
                }
            },
        }
    }

    /// Append to `list` the values of `opt_node`, in inorder.
    fn collectpeek_inorder<'a>(opt_node: &'a Option<Box<Node<T>>>, list: &mut Vec<&'a T>)
        ensures
            peeked(final(list)@) == peeked(old(list)@) + Self::inorder_of(*opt_node),
        decreases opt_node,
    {
        if let Some(boxed_node) = opt_node {
            let ghost start = list@;
            Node::collectpeek_inorder(&boxed_node.left_branch, list);
            let ghost middle = list@;
            list.push(&boxed_node.value);
            assert(peeked(list@) =~= peeked(middle) + seq![boxed_node.value]);
            Node::collectpeek_inorder(&boxed_node.right_branch, list);
            assert(peeked(list@) =~= peeked(start) + Self::inorder_of(*opt_node));
        } else {
            assert(peeked(list@) =~= peeked(list@) + Self::inorder_of(*opt_node));
        }
    }

    /// Add to the back of `list` the values of `opt_node`, in inorder.
    fn collectpeek_inorder_cratell<'a>(
        opt_node: &'a Option<Box<Node<T>>>,
        list: &mut LinkedList<&'a T>,
    )
        ensures
            peeked(final(list)@) == peeked(old(list)@) + Self::inorder_of(*opt_node),
        decreases opt_node,
    {
        if let Some(boxed_node) = opt_node {
            let ghost start = list@;
            Node::collectpeek_inorder_cratell(&boxed_node.left_branch, list);
            let ghost middle = list@;
            list.add_value(&boxed_node.value);
            assert(peeked(list@) =~= peeked(middle) + seq![boxed_node.value]);
            Node::collectpeek_inorder_cratell(&boxed_node.right_branch, list);
            assert(peeked(list@) =~= peeked(start) + Self::inorder_of(*opt_node));
        } else {
            assert(peeked(list@) =~= peeked(list@) + Self::inorder_of(*opt_node));
        }
    }

    /// Add to the back of `list` the values of `opt_node`, in preorder.
    fn collectpeek_preorder_cratell<'a>(
        opt_node: &'a Option<Box<Node<T>>>,
        list: &mut LinkedList<&'a T>,
    )
        ensures
            peeked(final(list)@) == peeked(old(list)@) + Self::preorder_of(*opt_node),
        decreases opt_node,
    {
        if let Some(boxed_node) = opt_node {
            let ghost start = list@;
            list.add_value(&boxed_node.value);
            assert(peeked(list@) =~= peeked(start) + seq![boxed_node.value]);
            Node::collectpeek_preorder_cratell(&boxed_node.left_branch, list);
            Node::collectpeek_preorder_cratell(&boxed_node.right_branch, list);
            assert(peeked(list@) =~= peeked(start) + Self::preorder_of(*opt_node));
        } else {
            assert(peeked(list@) =~= peeked(list@) + Self::preorder_of(*opt_node));
        }
    }

    /// Add to the back of `list` the values of `opt_node`, in postorder.
    fn collectpeek_postorder_cratell<'a>(
        opt_node: &'a Option<Box<Node<T>>>,
        list: &mut LinkedList<&'a T>,
    )
        ensures
            peeked(final(list)@) == peeked(old(list)@) + Self::postorder_of(*opt_node),
        decreases opt_node,
    {
        if let Some(boxed_node) = opt_node {
            let ghost start = list@;
            Node::collectpeek_postorder_cratell(&boxed_node.left_branch, list);
            Node::collectpeek_postorder_cratell(&boxed_node.right_branch, list);
            let ghost middle = list@;
            list.add_value(&boxed_node.value);
            assert(peeked(list@) =~= peeked(middle) + seq![boxed_node.value]);
            assert(peeked(list@) =~= peeked(start) + Self::postorder_of(*opt_node));
        } else {
            assert(peeked(list@) =~= peeked(list@) + Self::postorder_of(*opt_node));
        }
    }

    /// Append to `list` the values of `opt_node`, in preorder.
    fn collectpeek_preorder<'a>(opt_node: &'a Option<Box<Node<T>>>, list: &mut Vec<&'a T>)
        ensures
            peeked(final(list)@) == peeked(old(list)@) + Self::preorder_of(*opt_node),
        decreases opt_node,
    {
        if let Some(boxed_node) = opt_node {
            let ghost start = list@;
            list.push(&boxed_node.value);
            assert(peeked(list@) =~= peeked(start) + seq![boxed_node.value]);
            Node::collectpeek_preorder(&boxed_node.left_branch, list);
            Node::collectpeek_preorder(&boxed_node.right_branch, list);
            assert(peeked(list@) =~= peeked(start) + Self::preorder_of(*opt_node));
        } else {
            assert(peeked(list@) =~= peeked(list@) + Self::preorder_of(*opt_node));
        }
    }

    /// Append to `list` the values of `opt_node`, in postorder.
    fn collectpeek_postorder<'a>(opt_node: &'a Option<Box<Node<T>>>, list: &mut Vec<&'a T>)
        ensures
            peeked(final(list)@) == peeked(old(list)@) + Self::postorder_of(*opt_node),
        decreases opt_node,
    {
        if let Some(boxed_node) = opt_node {
            let ghost start = list@;
            Node::collectpeek_postorder(&boxed_node.left_branch, list);
            Node::collectpeek_postorder(&boxed_node.right_branch, list);
            let ghost middle = list@;
            list.push(&boxed_node.value);
            assert(peeked(list@) =~= peeked(middle) + seq![boxed_node.value]);
            assert(peeked(list@) =~= peeked(start) + Self::postorder_of(*opt_node));
        } else {
            assert(peeked(list@) =~= peeked(list@) + Self::postorder_of(*opt_node));
        }
    }
}

impl<T: TotalOrder> View for BinarySearchTree<T> {
    type V = Set<T>;

    /// The set of values held in the tree.
    open spec fn view(&self) -> Set<T> {
        Node::values_of(self.root_node())
    }
}

impl<T: TotalOrder> BinarySearchTree<T> {
    /// The root of the tree; `None` when it is empty.
    pub closed spec fn root_node(&self) -> Option<Box<Node<T>>> {
        self.root
    }

    /// Search-tree order holds at every node.
    pub open spec fn well_formed(&self) -> bool {
        Node::ordered_of(self.root_node())
    }

    /// The values of the tree, left subtree before node before right subtree.
    pub open spec fn inorder(&self) -> Seq<T> {
        Node::inorder_of(self.root_node())
    }

    /// The values of the tree, node before left subtree before right subtree.
    pub open spec fn preorder(&self) -> Seq<T> {
        Node::preorder_of(self.root_node())
    }

    /// The values of the tree, left subtree before right subtree before node.
    pub open spec fn postorder(&self) -> Seq<T> {
        Node::postorder_of(self.root_node())
    }

    /// The number of nodes on the longest path down from the root; 0 when empty.
    pub open spec fn tree_height(&self) -> nat {
        Node::height_of(self.root_node())
    }

    /// The values of the tree listed in the given order.
    pub open spec fn traversal(&self, order: TreeTraversalOrders) -> Seq<T> {
        match order {
            TreeTraversalOrders::Inorder => self.inorder(),
            TreeTraversalOrders::Preorder => self.preorder(),
            TreeTraversalOrders::Postorder => self.postorder(),
        }
    }

    /// A new, empty tree.
    pub fn new() -> (r: BinarySearchTree<T>)
        ensures
            r.well_formed(),
            r@ == Set::<T>::empty(),
            r.inorder() == Seq::<T>::empty(),
            r.preorder() == Seq::<T>::empty(),
            r.postorder() == Seq::<T>::empty(),
            r.tree_height() == 0,
            r.root_node().is_none(),
    {
        BinarySearchTree { root: None }
    }

    /// Add `value` to the tree, as a new leaf at the end of its search path.
    /// A value equal to one already held is discarded and the tree stays as it
    /// was.
    pub fn add_value(&mut self, value: T)
        requires
            old(self).well_formed(),
        ensures
            final(self).well_formed(),
            final(self).root_node() == Node::inserted(old(self).root_node(), value),
            final(self)@ == old(self)@.insert(value),
            old(self)@.contains(value) ==> final(self).root_node() == old(self).root_node(),
            old(self).tree_height() <= final(self).tree_height() <= old(self).tree_height() + 1,
    {
        proof {
            Node::lemma_inserted_height(self.root, value);
        }
        let ghost before = self.root;
        match &mut self.root {
            Some(boxed_node) => {
                boxed_node.add_value_as_child(value);
            },
            None => {
                let node = Node::new(value);
                assert(Node::values_of(node.left_branch) == Set::<T>::empty());
                assert(node.values() =~= Set::empty().insert(value));
                self.root = Some(Box::new(node));
            },
        }
        proof {
            if let Some(b) = before {
                Node::lemma_inserted_node(*b, *self.root.unwrap(), value);
            }
        }
    }

    /// Remove `value` from the tree, repairing it as `Node::removed` describes.
    /// A value the tree does not hold leaves it as it was.
    pub fn remove_value(&mut self, value: T)
        requires
            old(self).well_formed(),
        ensures
            final(self).well_formed(),
            final(self).root_node() == Node::removed(old(self).root_node(), value),
            final(self)@ == old(self)@.remove(value),
            !final(self)@.contains(value),
            !old(self)@.contains(value) ==> final(self).root_node() == old(self).root_node(),
            final(self).tree_height() <= old(self).tree_height(),
    {
        proof {
            Node::lemma_removed_height(self.root, value);
        }
        if let Some(node) = self.root.take() {
            self.root = Node::remove_value_if_child(node, &value);
        }
    }

    /// Whether the tree holds `value`.
    pub fn contains(&self, value: &T) -> (r: bool)
        requires
            self.well_formed(),
        ensures
            r == self@.contains(*value),
    {
        Node::find_value(&self.root, value)
    }

    /// The least value in the tree, or `None` when it is empty.
    pub fn min(&self) -> (r: Option<&T>)
        requires
            self.well_formed(),
        ensures
            r.is_none() <==> self@ == Set::<T>::empty(),
            r.is_some() ==> self@.contains(*r.unwrap()),
            r.is_some() ==> forall|x: T| #[trigger]
                self@.contains(x) ==> x == *r.unwrap() || r.unwrap().less(x),
    {
        proof {
            Node::lemma_size(self.root);
        }
        match &self.root {
            None => {
                assert(self@ =~= Set::<T>::empty());
                None
            },
            Some(node) => Some(node.find_minimum_child_below().peek_value()),
        }
    }

    /// The number of nodes on the longest path down from the root: 0 for an
    /// empty tree, 1 for a tree of one node.
    pub fn height(&self) -> (r: usize)
        requires
            self.well_formed(),
            self@.len() <= usize::MAX,
        ensures
            r == self.tree_height(),
    {
        proof {
            Node::lemma_height_at_most_size(self.root);
        }
        Node::height_below(&self.root)
    }

    /// The value at the root, or `None` when the tree is empty.
    pub fn peek_root_value(&self) -> (r: Option<&T>)
        ensures
            r == (match self.root_node() {
                None => None,
                Some(node) => Some(&node.value),
            }),
    {
        match &self.root {
            None => None,
            Some(node) => Some(node.peek_value()),
        }
    }

    /// References to the values of the tree, listed in the given order.
    pub fn collectpeek_traversal_values(&self, order: TreeTraversalOrders) -> (r: Vec<&T>)
        ensures
            peeked(r@) == self.traversal(order),
    {
        let mut list: Vec<&T> = Vec::new();
        assert(peeked(list@) =~= Seq::<T>::empty());
        match order {
            TreeTraversalOrders::Inorder => {
                Node::collectpeek_inorder(&self.root, &mut list);
            },
            TreeTraversalOrders::Preorder => {
                Node::collectpeek_preorder(&self.root, &mut list);
            },
            TreeTraversalOrders::Postorder => {
                Node::collectpeek_postorder(&self.root, &mut list);
            },
        }
        assert(peeked(list@) =~= self.traversal(order));
        list
    }

    /// References to the values of the tree, listed in the given order, in a
    /// `LinkedList` whose front is the first value.
    pub fn collectpeek_traversal_values_cratell(&self, order: TreeTraversalOrders) -> (r:
        LinkedList<&T>)
        ensures
            peeked(r@) == self.traversal(order),
    {
        let mut list: LinkedList<&T> = LinkedList::new();
        assert(peeked(list@) =~= Seq::<T>::empty());
        match order {
            TreeTraversalOrders::Inorder => {
                Node::collectpeek_inorder_cratell(&self.root, &mut list);
            },
            TreeTraversalOrders::Preorder => {
                Node::collectpeek_preorder_cratell(&self.root, &mut list);
            },
            TreeTraversalOrders::Postorder => {
                Node::collectpeek_postorder_cratell(&self.root, &mut list);
            },
        }
        assert(peeked(list@) =~= self.traversal(order));
        list
    }

    /// Whatever values were added, in whatever order, the inorder listing
    /// holds each distinct one exactly once, in ascending order: it is
    /// ascending and holds exactly the values of the tree.
    pub proof fn lemma_inorder_sorted(tree: &Self)
        requires
            tree.well_formed(),
        ensures
            ascending(tree.inorder()),
            tree.inorder().to_set() == tree@,
    {
        Node::lemma_inorder_ascending(tree.root);
        assert(tree.inorder().to_set() =~= tree@);
    }

    /// Adding a value the tree does not hold and then removing it gives back
    /// the tree as it was.
    pub proof fn lemma_remove_undoes_add(tree: &Self, v: T)
        requires
            tree.well_formed(),
            !tree@.contains(v),
        ensures
            Node::removed(Node::inserted(tree.root_node(), v), v) == tree.root_node(),
    {
        Node::lemma_removed_inserted(tree.root_node(), v);
    }

    /// The inorder, preorder and postorder listings of a tree hold the same
    /// values, each as often; they differ only in order.
    pub proof fn lemma_traversals_same_values(tree: &Self)
        ensures
            tree.inorder().to_multiset() == tree.preorder().to_multiset(),
            tree.inorder().to_multiset() == tree.postorder().to_multiset(),
    {
        Node::lemma_same_multiset(tree.root);
    }

    /// An empty tree has height 0 and a tree of one value has height 1; no
    /// tree is taller than the number of values it holds.
    pub proof fn lemma_height_boundary(tree: &Self)
        requires
            tree.well_formed(),
        ensures
            tree@.finite(),
            tree@.len() == 0 <==> tree.tree_height() == 0,
            tree@.len() == 1 ==> tree.tree_height() == 1,
            tree.tree_height() <= tree@.len(),
    {
        Node::lemma_size(tree.root);
        Node::lemma_height_at_most_size(tree.root);
        if let Some(n) = tree.root {
            Node::lemma_size(n.left_branch);
            Node::lemma_size(n.right_branch);
        }
    }
}

} // verus!
