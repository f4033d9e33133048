use std::cmp::Ordering;
use vstd::prelude::*;
use vstd::std_specs::cmp::OrdSpec;

verus! {

/// `a` comes strictly before `b` in the order of `T`.
pub open spec fn lt<T: Ord>(a: T, b: T) -> bool {
    a.cmp_spec(&b) == Ordering::Less
}

/// `T`'s `cmp` is a strict total order whose `Equal` is equality of values.
pub open spec fn total_order<T: Ord>() -> bool {
    &&& T::obeys_cmp_spec()
    &&& forall|a: T, b: T| #[trigger] a.cmp_spec(&b) == Ordering::Equal <==> a == b
    &&& forall|a: T, b: T|
        #[trigger] a.cmp_spec(&b) == Ordering::Less <==> b.cmp_spec(&a) == Ordering::Greater
    &&& forall|a: T, b: T, c: T| #[trigger] lt(a, b) && #[trigger] lt(b, c) ==> lt(a, c)
}

/// An internal node of an `AVLTree`.
struct AVLNode<T: Ord> {
    value: T,
    height: usize,
    left: Option<Box<AVLNode<T>>>,
    right: Option<Box<AVLNode<T>>>,
}

spec fn nmax(a: nat, b: nat) -> nat {
    if a >= b { a } else { b }
}

/// Height of a subtree, counted in nodes (an absent subtree has height 0).
spec fn height_of<T: Ord>(t: Option<Box<AVLNode<T>>>) -> nat
    decreases t,
{
    match t {
        None => 0,
        Some(n) => 1 + nmax(height_of(n.left), height_of(n.right)),
    }
}

/// The set of values stored in a subtree.
spec fn content<T: Ord>(t: Option<Box<AVLNode<T>>>) -> Set<T>
    decreases t,
{
    match t {
        None => Set::empty(),
        Some(n) => content(n.left).union(content(n.right)).insert(n.value),
    }
}

/// The values of a subtree, left to right.
spec fn inorder<T: Ord>(t: Option<Box<AVLNode<T>>>) -> Seq<T>
    decreases t,
{
    match t {
        None => Seq::empty(),
        Some(n) => inorder(n.left) + seq![n.value] + inorder(n.right),
    }
}

/// Search-tree order: every value on the left of a node is smaller, every value on its right larger.
spec fn ordered<T: Ord>(t: Option<Box<AVLNode<T>>>) -> bool
    decreases t,
{
    match t {
        None => true,
        Some(n) => {
            &&& ordered(n.left)
            &&& ordered(n.right)
            &&& forall|x: T| #[trigger] content(n.left).contains(x) ==> lt(x, n.value)
            &&& forall|x: T| #[trigger] content(n.right).contains(x) ==> lt(n.value, x)
        },
    }
}

/// The cached height of the top node is its subtree's height.
spec fn cached<T: Ord>(t: Option<Box<AVLNode<T>>>) -> bool {
    match t {
        None => true,
        Some(n) => n.height == height_of(t),
    }
}

/// Every node caches its height, and the heights of its two subtrees differ by at most one.
spec fn balanced<T: Ord>(t: Option<Box<AVLNode<T>>>) -> bool
    decreases t,
{
    match t {
        None => true,
        Some(n) => {
            &&& balanced(n.left)
            &&& balanced(n.right)
            &&& cached(t)
            &&& -1 <= height_of(n.right) - height_of(n.left) <= 1
        },
    }
}

spec fn avl<T: Ord>(t: Option<Box<AVLNode<T>>>) -> bool {
    ordered(t) && balanced(t)
}

proof fn lemma_irreflexive<T: Ord>(a: T)
    requires
        total_order::<T>(),
    ensures
        !lt(a, a),
{
    assert(a.cmp_spec(&a) == Ordering::Equal);
}

proof fn lemma_finite<T: Ord>(t: Option<Box<AVLNode<T>>>)
    ensures
        content(t).finite(),
    decreases t,
{
    if let Some(n) = t {
        lemma_finite(n.left);
        lemma_finite(n.right);
    }
}

/// An ordered subtree holds at least as many values as it is high.
proof fn lemma_height_le_len<T: Ord>(t: Option<Box<AVLNode<T>>>)
    requires
        total_order::<T>(),
        ordered(t),
    ensures
        content(t).finite(),
        height_of(t) <= content(t).len(),
    decreases t,
{
    lemma_finite(t);
    if let Some(n) = t {
        lemma_height_le_len(n.left);
        lemma_height_le_len(n.right);
        lemma_irreflexive(n.value);
        let c = content(t);
        assert(content(n.left).insert(n.value).subset_of(c));
        assert(content(n.right).insert(n.value).subset_of(c));
        vstd::set_lib::lemma_len_subset(content(n.left).insert(n.value), c);
        vstd::set_lib::lemma_len_subset(content(n.right).insert(n.value), c);
    }
}

/// The height a subtree's top node records in its `height` field (0 when absent).
spec fn field_height<T: Ord>(t: Option<Box<AVLNode<T>>>) -> nat {
    match t {
        None => 0,
        Some(n) => n.height as nat,
    }
}

/// The cached height of a subtree (0 when absent).
fn height_of_link<T: Ord>(t: &Option<Box<AVLNode<T>>>) -> (r: usize)
    ensures
        r == field_height(*t),
        cached(*t) ==> r == height_of(*t),
{
    match t {
        None => 0,
        Some(n) => n.height,
    }
}

impl<T: Ord> AVLNode<T> {
    /// Recomputes the `height` field from the children's `height` fields.
    fn update_height(&mut self)
        requires
            field_height(old(self).left) < usize::MAX,
            field_height(old(self).right) < usize::MAX,
        ensures
            final(self).value == old(self).value,
            final(self).left == old(self).left,
            final(self).right == old(self).right,
            final(self).height == 1 + nmax(field_height(old(self).left), field_height(old(self).right)),
            cached(old(self).left) && cached(old(self).right) ==> cached(
                Some(Box::new(*final(self))),
            ),
    {
        let l = height_of_link(&self.left);
        let r = height_of_link(&self.right);
        self.height = 1 + if l >= r { l } else { r };
    }

    /// Height of the right subtree minus height of the left subtree, as the children record them.
    fn balance_factor(&self) -> (r: i8)
        requires
            -127 <= field_height(self.right) - field_height(self.left) <= 127,
        ensures
            r == field_height(self.right) - field_height(self.left),
    {
        let l = height_of_link(&self.left);
        let r = height_of_link(&self.right);
        if l < r {
            (r - l) as i8
        } else {
            -((l - r) as i8)
        }
    }

    /// Right rotation: the left child takes this position, and this node becomes its right child.
    fn rotate_right(node: Box<AVLNode<T>>) -> (res: Box<AVLNode<T>>)
        requires
            node.left is Some,
            field_height(node.left.unwrap().left) < usize::MAX,
            1 + nmax(field_height(node.left.unwrap().right), field_height(node.right))
                < usize::MAX,
        ensures
            res.value == node.left.unwrap().value,
            res.left == node.left.unwrap().left,
            res.right is Some,
            res.right.unwrap().value == node.value,
            res.right.unwrap().left == node.left.unwrap().right,
            res.right.unwrap().right == node.right,
            res.right.unwrap().height == 1 + nmax(
                field_height(node.left.unwrap().right),
                field_height(node.right),
            ),
            res.height == 1 + nmax(field_height(res.left), field_height(res.right)),
            content(Some(res)) == content(Some(node)),
            total_order::<T>() && ordered(Some(node)) ==> ordered(Some(res)),
    {
        let ghost n0 = *node;
        let ghost p0 = *node.left.unwrap();
        let mut node = node;
        let mut pivot = node.left.take().unwrap();
        node.left = pivot.right.take();
        node.update_height();
        pivot.right = Some(node);
        pivot.update_height();
        proof {
            let m = pivot.right;
            assert(content(Some(Box::new(p0))) == content(n0.left));
            assert(content(m) =~= content(p0.right).union(content(n0.right)).insert(n0.value));
            assert(content(Some(pivot)) =~= content(Some(Box::new(n0))));
            if total_order::<T>() && ordered(Some(Box::new(n0))) {
                assert(ordered(n0.left));
                assert(ordered(Some(Box::new(p0))));
                assert(content(n0.left).contains(p0.value));
                assert forall|x: T| #[trigger] content(m).contains(x) implies lt(p0.value, x) by {
                    if content(p0.right).contains(x) {
                    } else if content(n0.right).contains(x) {
                        assert(lt(p0.value, n0.value) && lt(n0.value, x));
                    }
                }
                assert forall|x: T| #[trigger] content(p0.right).contains(x) implies lt(
                    x,
                    n0.value,
                ) by {
                    assert(content(n0.left).contains(x));
                }
                assert(ordered(m));
            }
        }
        pivot
    }

    /// Left rotation: the right child takes this position, and this node becomes its left child.
    fn rotate_left(node: Box<AVLNode<T>>) -> (res: Box<AVLNode<T>>)
        requires
            node.right is Some,
            field_height(node.right.unwrap().right) < usize::MAX,
            1 + nmax(field_height(node.left), field_height(node.right.unwrap().left))
                < usize::MAX,
        ensures
            res.value == node.right.unwrap().value,
            res.right == node.right.unwrap().right,
            res.left is Some,
            res.left.unwrap().value == node.value,
            res.left.unwrap().left == node.left,
            res.left.unwrap().right == node.right.unwrap().left,
            res.left.unwrap().height == 1 + nmax(
                field_height(node.left),
                field_height(node.right.unwrap().left),
            ),
            res.height == 1 + nmax(field_height(res.left), field_height(res.right)),
            content(Some(res)) == content(Some(node)),
            total_order::<T>() && ordered(Some(node)) ==> ordered(Some(res)),
    {
        let ghost n0 = *node;
        let ghost p0 = *node.right.unwrap();
        let mut node = node;
        let mut pivot = node.right.take().unwrap();
        node.right = pivot.left.take();
        node.update_height();
        pivot.left = Some(node);
        pivot.update_height();
        proof {
            let m = pivot.left;
            assert(content(Some(Box::new(p0))) == content(n0.right));
            assert(content(m) =~= content(n0.left).union(content(p0.left)).insert(n0.value));
            assert(content(Some(pivot)) =~= content(Some(Box::new(n0))));
            if total_order::<T>() && ordered(Some(Box::new(n0))) {
                assert(ordered(n0.right));
                assert(ordered(Some(Box::new(p0))));
                assert(content(n0.right).contains(p0.value));
                assert forall|x: T| #[trigger] content(m).contains(x) implies lt(x, p0.value) by {
                    if content(p0.left).contains(x) {
                    } else if content(n0.left).contains(x) {
                        assert(lt(x, n0.value) && lt(n0.value, p0.value));
                    }
                }
                assert forall|x: T| #[trigger] content(p0.left).contains(x) implies lt(
                    n0.value,
                    x,
                ) by {
                    assert(content(n0.right).contains(x));
                }
                assert(ordered(m));
            }
        }
        pivot
    }

    /// Restores balance at this node after one of its subtrees changed height by at most one.
    fn rebalance(node: Box<AVLNode<T>>) -> (res: Box<AVLNode<T>>)
        requires
            total_order::<T>(),
            ordered(Some(node)),
            balanced(node.left),
            balanced(node.right),
            -2 <= height_of(node.right) - height_of(node.left) <= 2,
            height_of(node.left) < usize::MAX,
            height_of(node.right) < usize::MAX,
        ensures
            avl(Some(res)),
            content(Some(res)) == content(Some(node)),
            nmax(height_of(node.left), height_of(node.right)) <= height_of(Some(res)),
            height_of(Some(res)) <= 1 + nmax(height_of(node.left), height_of(node.right)),
            -1 <= height_of(node.right) - height_of(node.left) <= 1 ==> height_of(Some(res)) == 1
                + nmax(height_of(node.left), height_of(node.right)),
            -1 <= height_of(node.right) - height_of(node.left) <= 1 ==> {
                &&& res.value == node.value
                &&& res.left == node.left
                &&& res.right == node.right
            },
    {
        let ghost n0 = *node;
        let ghost hl = height_of(n0.left);
        let ghost hr = height_of(n0.right);
        let mut node = node;
        node.update_height();
        let bf = node.balance_factor();
        if bf == -2 {
            let mut sub = node.left.take().unwrap();
            let ghost s0 = *sub;
            assert(ordered(n0.left) && balanced(n0.left));
            assert(Some(Box::new(s0)) == n0.left);
            assert(balanced(s0.left) && balanced(s0.right));
            assert(cached(s0.left) && cached(s0.right));
            if sub.balance_factor() == 1 {
                let ghost lr = *s0.right.unwrap();
                assert(balanced(s0.right));
                assert(s0.right == Some(Box::new(lr)));
                assert(balanced(lr.left) && balanced(lr.right));
                assert(cached(lr.left) && cached(lr.right));
                sub = AVLNode::rotate_left(sub);
                proof {
                    let m = sub.left;
                    assert(cached(m));
                    assert(height_of(s0.left) == hr);
                    assert(height_of(lr.left) <= hr && height_of(lr.right) <= hr);
                    assert(height_of(m) == hr + 1);
                    assert(balanced(m));
                }
            }
            assert(cached(sub.left) && cached(sub.right) && cached(n0.right));
            node.left = Some(sub);
            let r = AVLNode::rotate_right(node);
            proof {
                assert(cached(r.right));
                assert(cached(Some(r)));
                assert(balanced(r.left));
                assert(balanced(r.right));
                assert(balanced(Some(r)));
            }
            r
        } else if bf == 2 {
            let mut sub = node.right.take().unwrap();
            let ghost s0 = *sub;
            assert(ordered(n0.right) && balanced(n0.right));
            assert(Some(Box::new(s0)) == n0.right);
            assert(balanced(s0.left) && balanced(s0.right));
            assert(cached(s0.left) && cached(s0.right));
            if sub.balance_factor() == -1 {
                let ghost rl = *s0.left.unwrap();
                assert(balanced(s0.left));
                assert(s0.left == Some(Box::new(rl)));
                assert(balanced(rl.left) && balanced(rl.right));
                assert(cached(rl.left) && cached(rl.right));
                sub = AVLNode::rotate_right(sub);
                proof {
                    let m = sub.right;
                    assert(cached(m));
                    assert(height_of(s0.right) == hl);
                    assert(height_of(rl.left) <= hl && height_of(rl.right) <= hl);
                    assert(height_of(m) == hl + 1);
                    assert(balanced(m));
                }
            }
            assert(cached(sub.left) && cached(sub.right) && cached(n0.left));
            node.right = Some(sub);
            let r = AVLNode::rotate_left(node);
            proof {
                assert(cached(r.left));
                assert(cached(Some(r)));
                assert(balanced(r.left));
                assert(balanced(r.right));
                assert(balanced(Some(r)));
            }
            r
        } else {
            node
        }
    }
}

/// Inserts `value` into a subtree, rebalancing each node on the way back up.
/// Returns the new subtree and whether the value was absent before.
fn insert<T: Ord>(tree: Option<Box<AVLNode<T>>>, value: T) -> (res: (Option<Box<AVLNode<T>>>, bool))
    requires
        total_order::<T>(),
        avl(tree),
        height_of(tree) < usize::MAX,
    ensures
        avl(res.0),
        res.1 == !content(tree).contains(value),
        content(res.0) == content(tree).insert(value),
        !res.1 ==> res.0 == tree,
        height_of(tree) <= height_of(res.0) <= height_of(tree) + 1,
    decreases tree,
{
    match tree {
        None => {
            let node = Box::new(AVLNode { value, height: 1, left: None, right: None });
            proof {
                assert(content(Some(node)) =~= content(tree).insert(value));
            }
            (Some(node), true)
        },
        Some(node) => {
            let ghost n0 = *node;
            let mut node = node;
            match value.cmp(&node.value) {
                Ordering::Equal => (Some(node), false),
                Ordering::Less => {
                    proof {
                        if content(n0.right).contains(value) {
                            assert(lt(n0.value, value));
                        }
                    }
                    let (sub, inserted) = insert(node.left.take(), value);
                    node.left = sub;
                    if inserted {
                        proof {
                            assert(content(Some(node)) =~= content(tree).insert(value));
                        }
                        (Some(AVLNode::rebalance(node)), true)
                    } else {
                        proof {
                            assert(*node == n0);
                        }
                        (Some(node), false)
                    }
                },
                Ordering::Greater => {
                    proof {
                        if content(n0.left).contains(value) {
                            assert(lt(value, n0.value));
                        }
                    }
                    let (sub, inserted) = insert(node.right.take(), value);
                    node.right = sub;
                    if inserted {
                        proof {
                            assert(content(Some(node)) =~= content(tree).insert(value));
                        }
                        (Some(AVLNode::rebalance(node)), true)
                    } else {
                        proof {
                            assert(*node == n0);
                        }
                        (Some(node), false)
                    }
                },
            }
        },
    }
}

/// Removes `value` from a subtree, rebalancing each node on the way back up.
/// Returns the new subtree and whether the value was present.
fn remove<T: Ord>(tree: Option<Box<AVLNode<T>>>, value: &T) -> (res: (
    Option<Box<AVLNode<T>>>,
    bool,
))
    requires
        total_order::<T>(),
        avl(tree),
    ensures
        avl(res.0),
        res.1 == content(tree).contains(*value),
        content(res.0) == content(tree).remove(*value),
        !res.1 ==> res.0 == tree,
        height_of(res.0) <= height_of(tree) <= height_of(res.0) + 1,
    decreases tree,
{
    match tree {
        None => {
            proof {
                assert(content(tree) =~= content(tree).remove(*value));
            }
            (None, false)
        },
        Some(node) => {
            let ghost n0 = *node;
            let mut node = node;
            match value.cmp(&node.value) {
                Ordering::Less => {
                    proof {
                        if content(n0.right).contains(*value) {
                            assert(lt(n0.value, *value));
                        }
                    }
                    let (sub, removed) = remove(node.left.take(), value);
                    node.left = sub;
                    if removed {
                        proof {
                            assert(content(Some(node)) =~= content(tree).remove(*value));
                        }
                        (Some(AVLNode::rebalance(node)), true)
                    } else {
                        proof {
                            assert(*node == n0);
                            assert(content(tree) =~= content(tree).remove(*value));
                        }
                        (Some(node), false)
                    }
                },
                Ordering::Greater => {
                    proof {
                        if content(n0.left).contains(*value) {
                            assert(lt(*value, n0.value));
                        }
                    }
                    let (sub, removed) = remove(node.right.take(), value);
                    node.right = sub;
                    if removed {
                        proof {
                            assert(content(Some(node)) =~= content(tree).remove(*value));
                        }
                        (Some(AVLNode::rebalance(node)), true)
                    } else {
                        proof {
                            assert(*node == n0);
                            assert(content(tree) =~= content(tree).remove(*value));
                        }
                        (Some(node), false)
                    }
                },
                Ordering::Equal => {
                    proof {
                        lemma_irreflexive(n0.value);
                        assert(content(n0.left).union(content(n0.right)) =~= content(tree).remove(
                            *value,
                        ));
                    }
                    let left = node.left.take();
                    let right = node.right.take();
                    match left {
                        None => (right, true),
                        Some(l) => match right {
                            None => (Some(l), true),
                            Some(r) => {
                                proof {
                                    assert forall|x: T, y: T|
                                        #![trigger content(Some(l)).contains(x), content(Some(r)).contains(y)]
                                        content(Some(l)).contains(x) && content(Some(r)).contains(
                                            y,
                                        ) implies lt(x, y) by {
                                        assert(lt(x, n0.value) && lt(n0.value, y));
                                    }
                                }
                                (Some(merge(l, r)), true)
                            },
                        },
                    }
                },
            }
        },
    }
}

/// Joins two subtrees whose heights differ by at most one and whose values are all smaller on
/// the left: the smallest value of the right subtree becomes the root.
fn merge<T: Ord>(left: Box<AVLNode<T>>, right: Box<AVLNode<T>>) -> (res: Box<AVLNode<T>>)
    requires
        total_order::<T>(),
        avl(Some(left)),
        avl(Some(right)),
        forall|x: T, y: T|
            #![trigger content(Some(left)).contains(x), content(Some(right)).contains(y)]
            content(Some(left)).contains(x) && content(Some(right)).contains(y) ==> lt(x, y),
        -1 <= height_of(Some(right)) - height_of(Some(left)) <= 1,
        height_of(Some(left)) < usize::MAX,
        height_of(Some(right)) < usize::MAX,
    ensures
        avl(Some(res)),
        content(Some(res)) == content(Some(left)).union(content(Some(right))),
        nmax(height_of(Some(left)), height_of(Some(right))) <= height_of(Some(res)),
        height_of(Some(res)) <= 1 + nmax(height_of(Some(left)), height_of(Some(right))),
{
    let ghost cl = content(Some(left));
    let ghost cr = content(Some(right));
    let (rest, mut root) = take_min(right);
    proof {
        assert forall|x: T| #[trigger] cl.contains(x) implies lt(x, root.value) by {
            assert(cr.contains(root.value));
        }
    }
    root.left = Some(left);
    root.right = rest;
    proof {
        assert(content(Some(root)) =~= cl.union(cr));
    }
    AVLNode::rebalance(root)
}

/// Detaches the node holding the smallest value of a non-empty subtree.
/// Returns what is left of the subtree and the detached node, stripped of its children.
fn take_min<T: Ord>(node: Box<AVLNode<T>>) -> (res: (Option<Box<AVLNode<T>>>, Box<AVLNode<T>>))
    requires
        total_order::<T>(),
        avl(Some(node)),
    ensures
        avl(res.0),
        res.1.left is None,
        res.1.right is None,
        content(Some(node)) == content(res.0).insert(res.1.value),
        !content(res.0).contains(res.1.value),
        forall|x: T| #[trigger] content(res.0).contains(x) ==> lt(res.1.value, x),
        height_of(res.0) <= height_of(Some(node)) <= height_of(res.0) + 1,
    decreases node,
{
    let ghost n0 = *node;
    let mut node = node;
    proof {
        lemma_irreflexive(n0.value);
    }
    let smaller = node.left.take();
    match smaller {
        None => {
            let rest = node.right.take();
            proof {
                assert(content(n0.left) =~= Set::<T>::empty());
                assert(content(Some(Box::new(n0))) =~= content(rest).insert(n0.value));
                assert(ordered(Some(Box::new(n0))));
                assert(forall|x: T| #[trigger] content(rest).contains(x) ==> lt(n0.value, x));
            }
            (rest, node)
        },
        Some(l) => {
            let (rest, min) = take_min(l);
            proof {
                assert(content(n0.left).contains(min.value));
                assert forall|x: T| #[trigger] content(rest).contains(x) implies lt(x, n0.value) by {
                    assert(content(n0.left).contains(x));
                }
                assert forall|x: T| #[trigger] content(n0.right).contains(x) implies lt(
                    min.value,
                    x,
                ) by {
                    assert(lt(min.value, n0.value) && lt(n0.value, x));
                }
            }
            node.left = rest;
            proof {
                assert(content(Some(Box::new(n0))) =~= content(Some(node)).insert(min.value));
            }
            let ghost c = content(Some(node));
            proof {
                lemma_irreflexive(min.value);
                assert(c =~= content(rest).union(content(n0.right)).insert(n0.value));
                assert(!c.contains(min.value));
                assert forall|x: T| #[trigger] c.contains(x) implies lt(min.value, x) by {
                    if x == n0.value {
                    } else if content(rest).contains(x) {
                    } else {
                        assert(content(n0.right).contains(x));
                    }
                }
            }
            let r = AVLNode::rebalance(node);
            (Some(r), min)
        },
    }
}

/// An AVL tree: an ordered set of unique values, kept balanced so that the height difference
/// between the two subtrees of every node is at most one.
pub struct AVLTree<T: Ord> {
    root: Option<Box<AVLNode<T>>>,
    length: usize,
}

impl<T: Ord> View for AVLTree<T> {
    type V = Set<T>;

    /// The set of values in the tree.
    closed spec fn view(&self) -> Set<T> {
        content(self.root)
    }
}

impl<T: Ord> AVLTree<T> {
    /// Every node caches its height, and the heights of the two subtrees of every node differ
    /// by at most one.
    pub closed spec fn is_balanced(&self) -> bool {
        balanced(self.root)
    }

    /// The values of the tree from left to right.
    pub closed spec fn values(&self) -> Seq<T> {
        inorder(self.root)
    }

    /// The tree is ordered and balanced, and its count is the number of values it holds.
    pub closed spec fn well_formed(&self) -> bool {
        &&& avl(self.root)
        &&& content(self.root).finite()
        &&& self.length == content(self.root).len()
    }

    /// Creates an empty tree.
    pub fn new() -> (r: AVLTree<T>)
        ensures
            r.well_formed(),
            r@ == Set::<T>::empty(),
    {
        AVLTree { root: None, length: 0 }
    }

    /// Checks whether the tree holds `value`.
    pub fn contains(&self, value: &T) -> (r: bool)
        requires
            total_order::<T>(),
            self.well_formed(),
        ensures
            r == self@.contains(*value),
    {
        let mut current = &self.root;
        loop
            invariant
                total_order::<T>(),
                avl(*current),
                content(*current).contains(*value) == content(self.root).contains(*value),
            decreases height_of(*current),
        {
            match current {
                None => {
                    return false;
                },
                Some(node) => {
                    proof {
                        lemma_irreflexive(node.value);
                    }
                    match value.cmp(&node.value) {
                        Ordering::Equal => {
                            return true;
                        },
                        Ordering::Less => {
                            proof {
                                if content(node.right).contains(*value) {
                                    assert(lt(node.value, *value));
                                }
                            }
                            current = &node.left;
                        },
                        Ordering::Greater => {
                            proof {
                                if content(node.left).contains(*value) {
                                    assert(lt(*value, node.value));
                                }
                            }
                            current = &node.right;
                        },
                    }
                },
            }
        }
    }

    /// Adds `value` to the tree. Returns `true` when it was not yet there; otherwise the tree
    /// is left as it was.
    pub fn insert(&mut self, value: T) -> (r: bool)
        requires
            total_order::<T>(),
            old(self).well_formed(),
            old(self)@.len() < usize::MAX,
        ensures
            final(self).well_formed(),
            r == !old(self)@.contains(value),
            final(self)@ == old(self)@.insert(value),
            !r ==> *final(self) == *old(self),
    {
        proof {
            lemma_height_le_len(self.root);
        }
        let root = self.root.take();
        let (root, inserted) = insert(root, value);
        self.root = root;
        if inserted {
            self.length = self.length + 1;
        }
        inserted
    }

    /// Removes `value` from the tree. Returns `true` when it was there; otherwise the tree is
    /// left as it was.
    pub fn remove(&mut self, value: &T) -> (r: bool)
        requires
            total_order::<T>(),
            old(self).well_formed(),
        ensures
            final(self).well_formed(),
            r == old(self)@.contains(*value),
            final(self)@ == old(self)@.remove(*value),
            !r ==> *final(self) == *old(self),
    {
        let root = self.root.take();
        let (root, removed) = remove(root, value);
        self.root = root;
        if removed {
            self.length = self.length - 1;
        }
        removed
    }

    /// The number of values in the tree.
    pub fn len(&self) -> (r: usize)
        requires
            self.well_formed(),
        ensures
            r == self@.len(),
    {
        self.length
    }

    /// Whether the tree holds no value.
    pub fn is_empty(&self) -> (r: bool)
        requires
            self.well_formed(),
        ensures
            r == (self@ == Set::<T>::empty()),
    {
        proof {
            if self.length != 0 && self@ == Set::<T>::empty() {
                assert(self@.len() == 0);
            }
            if self.length == 0 {
                vstd::set_lib::lemma_set_empty_equivalency_len(self@);
            }
        }
        self.length == 0
    }
}

/// What an iterator over `stack` yields: each node's value and then its right subtree, from the
/// top of the stack down.
spec fn stack_values<T: Ord>(stack: Seq<&AVLNode<T>>) -> Seq<T>
    decreases stack.len(),
{
    if stack.len() == 0 {
        Seq::empty()
    } else {
        let n = stack.last();
        seq![n.value] + inorder(n.right) + stack_values(stack.drop_last())
    }
}

/// The nodes on the chain of left children from the top of a subtree down, top first.
spec fn left_spine<T: Ord>(t: Option<Box<AVLNode<T>>>) -> Seq<AVLNode<T>>
    decreases t,
{
    match t {
        None => Seq::empty(),
        Some(n) => seq![*n] + left_spine(n.left),
    }
}

/// The nodes a stack of references points to, bottom first.
spec fn nodes_of<T: Ord>(stack: Seq<&AVLNode<T>>) -> Seq<AVLNode<T>> {
    stack.map_values(|r: &AVLNode<T>| *r)
}

/// Height of the subtree rooted at `n`.
spec fn node_height<T: Ord>(n: AVLNode<T>) -> nat {
    1 + nmax(height_of(n.left), height_of(n.right))
}

/// Each node is strictly lower than the one below it.
spec fn descending<T: Ord>(s: Seq<AVLNode<T>>) -> bool {
    forall|i: int| 0 <= i < s.len() - 1 ==> node_height(#[trigger] s[i + 1]) < node_height(s[i])
}

/// The height of the bottom node, which no other node of the stack reaches (0 when empty).
spec fn bottom_height<T: Ord>(s: Seq<AVLNode<T>>) -> nat {
    if s.len() == 0 {
        0
    } else {
        node_height(s[0])
    }
}

proof fn lemma_left_spine<T: Ord>(t: Option<Box<AVLNode<T>>>)
    ensures
        descending(left_spine(t)),
        left_spine(t).len() <= height_of(t),
        bottom_height(left_spine(t)) == height_of(t),
    decreases t,
{
    if let Some(n) = t {
        lemma_left_spine(n.left);
        let s = left_spine(t);
        assert(s[0] == *n);
        assert forall|i: int| 0 <= i < s.len() - 1 implies node_height(#[trigger] s[i + 1])
            < node_height(s[i]) by {
            let ls = left_spine(n.left);
            assert(s[i + 1] == ls[i]);
            if i > 0 {
                assert(s[i] == ls[i - 1]);
                assert(node_height(ls[(i - 1) + 1]) < node_height(ls[i - 1]));
            } else {
                assert(node_height(ls[0]) == height_of(n.left));
            }
        }
    }
}

proof fn lemma_descending_len<T: Ord>(s: Seq<AVLNode<T>>, k: int)
    requires
        descending(s),
        0 <= k < s.len(),
    ensures
        node_height(s[k]) + k <= bottom_height(s),
    decreases k,
{
    if k > 0 {
        lemma_descending_len(s, k - 1);
        assert(node_height(s[(k - 1) + 1]) < node_height(s[k - 1]));
    }
}

/// Pushes the path from `t` down its chain of left children, so that the stack then yields
/// the values of `t` before what it yielded already.
fn push_left_spine<'a, T: Ord>(stack: &mut Vec<&'a AVLNode<T>>, t: &'a Option<Box<AVLNode<T>>>)
    ensures
        stack_values(final(stack)@) == inorder(*t) + stack_values(old(stack)@),
        nodes_of(final(stack)@) == nodes_of(old(stack)@) + left_spine(*t),
{
    let ghost start = stack_values(stack@);
    let ghost start_nodes = nodes_of(stack@);
    let mut child = t;
    loop
        invariant
            inorder(*child) + stack_values(stack@) == inorder(*t) + start,
            nodes_of(stack@) + left_spine(*child) == start_nodes + left_spine(*t),
        ensures
            stack_values(stack@) == inorder(*t) + start,
            nodes_of(stack@) == start_nodes + left_spine(*t),
        decreases height_of(*child),
    {
        match child {
            None => {
                assert(inorder(*child) + stack_values(stack@) =~= stack_values(stack@));
                assert(nodes_of(stack@) + left_spine(*child) =~= nodes_of(stack@));
                break ;
            },
            Some(node) => {
                let ghost before = stack@;
                let r: &'a AVLNode<T> = node;
                stack.push(r);
                proof {
                    assert(stack@.drop_last() =~= before);
                    assert(inorder(node.left) + stack_values(stack@) =~= inorder(*child)
                        + stack_values(before));
                    assert(nodes_of(stack@) =~= nodes_of(before) + seq![**node]);
                    assert(nodes_of(stack@) + left_spine(node.left) =~= nodes_of(before)
                        + left_spine(*child));
                }
                child = &node.left;
            },
        }
    }
}

/// An iterator over the values of an `AVLTree`, in ascending order.
pub struct Iter<'a, T: Ord> {
    stack: Vec<&'a AVLNode<T>>,
}

impl<'a, T: Ord> Iter<'a, T> {
    /// The values that the iterator has yet to yield, in order.
    pub closed spec fn rest(&self) -> Seq<T> {
        stack_values(self.stack@)
    }

    /// The number of nodes on the iterator's stack.
    pub closed spec fn depth(&self) -> nat {
        self.stack@.len()
    }

    /// The height of the subtree at the bottom of the stack (0 when the stack is empty).
    pub closed spec fn bound(&self) -> nat {
        bottom_height(nodes_of(self.stack@))
    }

    /// Each node on the stack roots a strictly lower subtree than the node below it.
    pub closed spec fn well_formed(&self) -> bool {
        descending(nodes_of(self.stack@))
    }

    /// The stack is the chain of left children from the root of `tree`, root at the bottom.
    pub closed spec fn is_left_spine_of(&self, tree: &AVLTree<T>) -> bool {
        nodes_of(self.stack@) == left_spine(tree.root)
    }

    /// The stack of a well-formed iterator holds at most `bound()` nodes.
    pub proof fn lemma_depth(&self)
        requires
            self.well_formed(),
        ensures
            self.depth() <= self.bound(),
    {
        let s = nodes_of(self.stack@);
        if s.len() > 0 {
            lemma_descending_len(s, s.len() - 1);
        }
    }

    /// Yields the next value, or `None` once every value has been yielded. The stack stays
    /// well formed, and its bound never grows.
    pub fn next(&mut self) -> (r: Option<&'a T>)
        ensures
            match r {
                Some(v) => {
                    &&& old(self).rest().len() > 0
                    &&& *v == old(self).rest()[0]
                    &&& final(self).rest() == old(self).rest().drop_first()
                },
                None => old(self).rest().len() == 0 && final(self).rest() == old(self).rest(),
            },
            old(self).well_formed() ==> final(self).well_formed(),
            old(self).well_formed() ==> final(self).bound() <= old(self).bound(),
            old(self).well_formed() ==> final(self).depth() <= final(self).bound(),
    {
        let ghost before = self.stack@;
        match self.stack.pop() {
            None => None,
            Some(node) => {
                proof {
                    assert(self.stack@ =~= before.drop_last());
                }
                push_left_spine(&mut self.stack, &node.right);
                proof {
                    let tail = inorder(node.right) + stack_values(before.drop_last());
                    assert(stack_values(before) =~= seq![node.value] + tail);
                    assert(stack_values(before).drop_first() =~= tail);
                    let old_nodes = nodes_of(before);
                    let kept = nodes_of(before.drop_last());
                    let sp = left_spine(node.right);
                    let now = nodes_of(self.stack@);
                    assert(kept =~= old_nodes.drop_last());
                    assert(old_nodes[old_nodes.len() - 1] == *node);
                    lemma_left_spine(node.right);
                    if descending(old_nodes) {
                        assert forall|i: int| 0 <= i < now.len() - 1 implies node_height(
                            #[trigger] now[i + 1],
                        ) < node_height(now[i]) by {
                            if i + 1 < kept.len() {
                                assert(now[i] == old_nodes[i] && now[i + 1] == old_nodes[i + 1]);
                            } else if i + 1 == kept.len() {
                                assert(now[i] == old_nodes[i]);
                                assert(now[i + 1] == sp[0]);
                                assert(node_height(old_nodes[i + 1]) < node_height(old_nodes[i]));
                            } else {
                                assert(now[i] == sp[i - kept.len()]);
                                assert(now[i + 1] == sp[(i - kept.len()) + 1]);
                            }
                        }
                        if kept.len() > 0 {
                            assert(now[0] == old_nodes[0]);
                        } else if sp.len() > 0 {
                            assert(now[0] == sp[0]);
                        }
                        self.lemma_depth();
                    }
                }
                Some(&node.value)
            },
        }
    }
}

impl<T: Ord> AVLTree<T> {
    /// The height of the tree: the number of nodes on its longest path from the root (0 when
    /// empty).
    pub closed spec fn height(&self) -> nat {
        height_of(self.root)
    }

    /// An iterator over the values of the tree in ascending order. Its stack starts as the
    /// chain of left children from the root, so it holds at most `height()` nodes and is empty
    /// exactly when the tree is.
    pub fn iter<'a>(&'a self) -> (r: Iter<'a, T>)
        ensures
            r.rest() == self.values(),
            r.is_left_spine_of(self),
            r.well_formed(),
            r.bound() == self.height(),
            r.depth() <= self.height(),
            r.depth() == 0 <==> self@ == Set::<T>::empty(),
    {
        let mut stack: Vec<&'a AVLNode<T>> = Vec::new();
        push_left_spine(&mut stack, &self.root);
        proof {
            assert(inorder(self.root) + stack_values(Seq::<&AVLNode<T>>::empty()) =~= inorder(
                self.root,
            ));
            assert(nodes_of(Seq::<&AVLNode<T>>::empty()) + left_spine(self.root) =~= left_spine(
                self.root,
            ));
            lemma_left_spine(self.root);
            if self.root is Some {
                assert(content(self.root).contains(self.root.unwrap().value));
            }
        }
        Iter { stack }
    }
}

/// The in-order sequence of an ordered subtree is strictly ascending and holds its values.
proof fn lemma_inorder<T: Ord>(t: Option<Box<AVLNode<T>>>)
    requires
        total_order::<T>(),
        ordered(t),
    ensures
        forall|i: int, j: int|
            0 <= i < j < inorder(t).len() ==> lt(#[trigger] inorder(t)[i], #[trigger] inorder(t)[j]),
        forall|x: T| #[trigger] inorder(t).contains(x) <==> content(t).contains(x),
    decreases t,
{
    if let Some(n) = t {
        lemma_inorder(n.left);
        lemma_inorder(n.right);
        let l = inorder(n.left);
        let r = inorder(n.right);
        let s = inorder(t);
        assert(s == l + seq![n.value] + r);
        assert forall|x: T| #[trigger] s.contains(x) <==> content(t).contains(x) by {
            if s.contains(x) {
                let k = choose|k: int| 0 <= k < s.len() && s[k] == x;
                if k < l.len() {
                    assert(l.contains(x));
                } else if k > l.len() {
                    assert(r[k - l.len() - 1] == x);
                    assert(r.contains(x));
                }
            }
            if content(n.left).contains(x) {
                assert(l.contains(x));
                let k = choose|k: int| 0 <= k < l.len() && l[k] == x;
                assert(s[k] == x);
            } else if content(n.right).contains(x) {
                assert(r.contains(x));
                let k = choose|k: int| 0 <= k < r.len() && r[k] == x;
                assert(s[k + l.len() + 1] == x);
            } else if x == n.value {
                assert(s[l.len() as int] == x);
            }
        }
        assert forall|i: int, j: int| 0 <= i < j < s.len() implies lt(
            #[trigger] s[i],
            #[trigger] s[j],
        ) by {
            let ll = l.len() as int;
            if i < ll {
                assert(l.contains(s[i]));
                if j < ll {
                    assert(s[i] == l[i] && s[j] == l[j]);
                } else if j > ll {
                    assert(r[j - ll - 1] == s[j]);
                    assert(r.contains(s[j]));
                    assert(lt(s[i], n.value) && lt(n.value, s[j]));
                }
            } else if i == ll {
                assert(r[j - ll - 1] == s[j]);
                assert(r.contains(s[j]));
            } else {
                assert(s[i] == r[i - ll - 1] && s[j] == r[j - ll - 1]);
            }
        }
    }
}

/// What inserting `values` one by one into a set gives, each step as `AVLTree::insert` states it.
pub open spec fn inserted_all<T>(start: Set<T>, values: Seq<T>) -> Set<T>
    decreases values.len(),
{
    if values.len() == 0 {
        start
    } else {
        inserted_all(start, values.drop_last()).insert(values.last())
    }
}

/// What removing `values` one by one from a set gives, each step as `AVLTree::remove` states it.
pub open spec fn removed_all<T>(start: Set<T>, values: Seq<T>) -> Set<T>
    decreases values.len(),
{
    if values.len() == 0 {
        start
    } else {
        removed_all(start, values.drop_last()).remove(values.last())
    }
}

proof fn lemma_inserted_all<T>(values: Seq<T>)
    ensures
        inserted_all(Set::<T>::empty(), values) == values.to_set(),
    decreases values.len(),
{
    if values.len() > 0 {
        lemma_inserted_all(values.drop_last());
        values.drop_last().lemma_push_to_set_commute(values.last());
        assert(values.drop_last().push(values.last()) == values);
    } else {
        assert(values.to_set() =~= Set::<T>::empty());
    }
}

proof fn lemma_removed_all<T>(start: Set<T>, values: Seq<T>)
    ensures
        removed_all(start, values) == start.difference(values.to_set()),
    decreases values.len(),
{
    if values.len() > 0 {
        lemma_removed_all(start, values.drop_last());
        values.drop_last().lemma_push_to_set_commute(values.last());
        assert(values.drop_last().push(values.last()) == values);
        assert(removed_all(start, values) =~= start.difference(values.to_set()));
    } else {
        assert(start.difference(values.to_set()) =~= start);
    }
}

/// The Fibonacci numbers: `fib(0) == 0`, `fib(1) == 1`.
pub open spec fn fib(n: nat) -> nat
    decreases n,
{
    if n < 2 {
        n
    } else {
        fib((n - 1) as nat) + fib((n - 2) as nat)
    }
}

proof fn lemma_fib_monotone(a: nat, b: nat)
    requires
        a <= b,
    ensures
        fib(a) <= fib(b),
    decreases b,
{
    if a < b {
        lemma_fib_monotone(a, (b - 1) as nat);
        if b >= 2 {
            assert(fib(b) == fib((b - 1) as nat) + fib((b - 2) as nat));
        }
    }
}

/// A balanced, ordered subtree of height `h` holds at least `fib(h + 2) - 1` values.
proof fn lemma_fib_size<T: Ord>(t: Option<Box<AVLNode<T>>>)
    requires
        total_order::<T>(),
        avl(t),
    ensures
        content(t).finite(),
        fib(height_of(t) + 2) <= content(t).len() + 1,
    decreases t,
{
    lemma_finite(t);
    if let Some(n) = t {
        lemma_fib_size(n.left);
        lemma_fib_size(n.right);
        lemma_irreflexive(n.value);
        let cl = content(n.left);
        let cr = content(n.right);
        assert(cl.disjoint(cr)) by {
            assert forall|x: T| cl.contains(x) implies !cr.contains(x) by {
                if cr.contains(x) {
                    assert(lt(x, n.value) && lt(n.value, x));
                    lemma_irreflexive(x);
                }
            }
        }
        vstd::set_lib::lemma_set_disjoint_lens(cl, cr);
        assert(cl + cr == cl.union(cr));
        assert(!cl.union(cr).contains(n.value));
        assert(content(t).len() == cl.len() + cr.len() + 1);
        let hl = height_of(n.left);
        let hr = height_of(n.right);
        let h = height_of(t);
        assert(fib(h + 2) == fib(h + 1) + fib(h as nat));
        if hl >= hr {
            lemma_fib_monotone(h as nat, hr + 2);
        } else {
            lemma_fib_monotone(h as nat, hl + 2);
        }
    } else {
        assert(fib(2) == fib(1) + fib(0));
    }
}

impl<T: Ord> AVLTree<T> {
    /// Every mutation keeps a tree well formed, so every node of a tree reached by any sequence
    /// of insertions and removals is balanced: the heights of its two subtrees differ by at
    /// most one.
    pub proof fn lemma_balanced(&self)
        requires
            self.well_formed(),
        ensures
            self.is_balanced(),
    {
    }

    /// A well-formed tree of height `h` holds at least `fib(h + 2) - 1` values, so its height
    /// grows only logarithmically with its size (below `1.45 * log2(len + 2)`), and so does the
    /// number of comparisons made by `contains`, `insert` and `remove`.
    pub proof fn lemma_height_logarithmic(&self)
        requires
            total_order::<T>(),
            self.well_formed(),
        ensures
            fib(self.height() + 2) <= self@.len() + 1,
    {
        lemma_fib_size(self.root);
    }

    /// The values of a well-formed tree, in the order that `iter` yields them, are strictly
    /// ascending, hence free of repeats, and are exactly the values of the tree.
    pub proof fn lemma_values_ascending(&self)
        requires
            total_order::<T>(),
            self.well_formed(),
        ensures
            forall|i: int, j: int|
                0 <= i < j < self.values().len() ==> lt(
                    #[trigger] self.values()[i],
                    #[trigger] self.values()[j],
                ),
            self.values().no_duplicates(),
            self.values().to_set() == self@,
            self.values().len() == self@.len(),
    {
        lemma_inorder(self.root);
        let s = inorder(self.root);
        assert forall|i: int, j: int| 0 <= i < s.len() && 0 <= j < s.len() && i != j implies s[i]
            != s[j] by {
            lemma_irreflexive(s[i]);
            if i > j {
                assert(lt(s[j], s[i]));
            }
        }
        assert(s.to_set() =~= content(self.root));
        s.unique_seq_to_set();
    }

    /// Inserting `n` distinct values into an empty tree, and counting, gives `n`; removing them
    /// all again, in any order, leaves the tree empty.
    pub proof fn lemma_round_trip_count(values: Seq<T>, removal_order: Seq<T>)
        requires
            values.no_duplicates(),
            removal_order.to_set() == values.to_set(),
        ensures
            inserted_all(Set::<T>::empty(), values).len() == values.len(),
            removed_all(inserted_all(Set::<T>::empty(), values), removal_order) == Set::<
                T,
            >::empty(),
    {
        lemma_inserted_all(values);
        values.unique_seq_to_set();
        lemma_removed_all(values.to_set(), removal_order);
        assert(values.to_set().difference(values.to_set()) =~= Set::<T>::empty());
    }

    /// Builds a tree from `values`, inserting them in order; a value already present is skipped.
    pub fn from_values(values: Vec<T>) -> (r: AVLTree<T>)
        requires
            total_order::<T>(),
        ensures
            r.well_formed(),
            r@ == values@.to_set(),
    {
        let ghost all = values@.to_set();
        let ghost n = values.len();
        let mut values = values;
        let mut pending: Vec<T> = Vec::new();
        proof {
            assert(pending@.to_set() =~= Set::<T>::empty());
            assert(values@.to_set().union(pending@.to_set()) =~= all);
        }
        while values.len() > 0
            invariant
                values@.to_set().union(pending@.to_set()) == all,
                values.len() + pending.len() == n,
            decreases values.len(),
        {
            let ghost vs = values@;
            let ghost ps = pending@;
            let v = values.pop().unwrap();
            pending.push(v);
            proof {
                assert(vs.drop_last().push(vs.last()) == vs);
                vs.drop_last().lemma_push_to_set_commute(vs.last());
                ps.lemma_push_to_set_commute(vs.last());
                assert(values@.to_set().union(pending@.to_set()) =~= all);
            }
        }
        let mut tree = AVLTree::new();
        proof {
            assert(values@.to_set() =~= Set::<T>::empty());
            assert(tree@.union(pending@.to_set()) =~= all);
        }
        while pending.len() > 0
            invariant
                total_order::<T>(),
                tree.well_formed(),
                tree@.union(pending@.to_set()) == all,
                tree@.len() + pending.len() <= n,
                n <= usize::MAX,
            decreases pending.len(),
        {
            let ghost ps = pending@;
            let v = pending.pop().unwrap();
            proof {
                assert(ps.drop_last().push(ps.last()) == ps);
                ps.drop_last().lemma_push_to_set_commute(ps.last());
            }
            tree.insert(v);
            proof {
                assert(tree@.union(pending@.to_set()) =~= all);
            }
        }
        tree
    }
}

impl<T: Ord> Default for AVLTree<T> {
    /// An empty tree.
    fn default() -> (r: Self)
        ensures
            r.well_formed(),
            r@ == Set::<T>::empty(),
    {
        AVLTree::new()
    }
}

/// Checks at run time that every node of a subtree caches its height and is balanced.
fn check_balanced<T: Ord>(t: &Option<Box<AVLNode<T>>>) -> (r: bool)
    ensures
        r == balanced(*t),
    decreases *t,
{
    match t {
        None => true,
        Some(n) => {
            if !check_balanced(&n.left) || !check_balanced(&n.right) {
                return false;
            }
            let hl = height_of_link(&n.left);
            let hr = height_of_link(&n.right);
            let high = if hl >= hr { hl } else { hr };
            let low = if hl >= hr { hr } else { hl };
            high < usize::MAX && n.height == high + 1 && high - low <= 1
        },
    }
}

impl<T: Ord> AVLTree<T> {
    /// Checks at run time what `is_balanced` states: every node caches its height, and the
    /// heights of its two subtrees differ by at most one.
    pub fn balanced(&self) -> (r: bool)
        ensures
            r == self.is_balanced(),
    {
        check_balanced(&self.root)
    }
}

} // verus!
