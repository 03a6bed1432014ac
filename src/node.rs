use vstd::prelude::*;
use vstd::multiset::Multiset;
use crate::order::{Cmp, TotalOrder, lt};
use crate::check::{lemma_levels_bounded, lemma_wf_split};

verus! {

broadcast use vstd::multiset::group_multiset_axioms, crate::order::group_total_order;

/// A tree vertex: one distinct value, how many times it is held, the
/// cached height of its subtree (0 for a leaf), and the serial number the
/// tree gave the vertex when it created it. Rotations move vertices with
/// their serials; a vertex's serial never changes.
pub struct Node<T> {
    pub value: T,
    pub serial: u64,
    pub height: usize,
    pub counter: usize,
    pub left: Option<Box<Node<T>>>,
    pub right: Option<Box<Node<T>>>,
}

pub open spec fn max_nat(a: nat, b: nat) -> nat {
    if a >= b { a } else { b }
}

/// Number of levels of a subtree: 0 when absent, 1 for a leaf.
pub open spec fn levels<T: TotalOrder>(t: Option<Box<Node<T>>>) -> nat
    decreases t,
{
    match t {
        None => 0,
        Some(n) => 1 + max_nat(levels(n.left), levels(n.right)),
    }
}

/// `n` copies of `k`.
pub(crate) open spec fn copies<T: TotalOrder>(k: T, n: nat) -> Multiset<T>
    decreases n,
{
    if n == 0 {
        Multiset::empty()
    } else {
        copies(k, (n - 1) as nat).insert(k)
    }
}

/// The values held by a subtree, with their multiplicities.
pub(crate) open spec fn bag<T: TotalOrder>(t: Option<Box<Node<T>>>) -> Multiset<T>
    decreases t,
{
    match t {
        None => Multiset::empty(),
        Some(n) => bag(n.left).add(bag(n.right)).add(copies(n.value, n.counter as nat)),
    }
}

/// Everything about a node but its own cached height: a positive count,
/// search order against both subtrees, and well-formed subtrees.
pub(crate) open spec fn shape_ok<T: TotalOrder>(n: Node<T>) -> bool {
    &&& n.counter >= 1
    &&& forall|v: T| #[trigger] bag(n.left).count(v) > 0 ==> lt(v, n.value)
    &&& forall|v: T| #[trigger] bag(n.right).count(v) > 0 ==> lt(n.value, v)
    &&& wf(n.left)
    &&& wf(n.right)
}

/// Search order, positive counts and correct cached heights at every node.
pub(crate) open spec fn wf<T: TotalOrder>(t: Option<Box<Node<T>>>) -> bool
    decreases t,
{
    match t {
        None => true,
        Some(n) => {
            &&& n.counter >= 1
            &&& n.height == max_nat(levels(n.left), levels(n.right))
            &&& forall|v: T| #[trigger] bag(n.left).count(v) > 0 ==> lt(v, n.value)
            &&& forall|v: T| #[trigger] bag(n.right).count(v) > 0 ==> lt(n.value, v)
            &&& wf(n.left)
            &&& wf(n.right)
        }
    }
}

/// Subtree heights differ by at most one at every node.
pub(crate) open spec fn avl<T: TotalOrder>(t: Option<Box<Node<T>>>) -> bool
    decreases t,
{
    match t {
        None => true,
        Some(n) => {
            &&& levels(n.left) <= levels(n.right) + 1
            &&& levels(n.right) <= levels(n.left) + 1
            &&& avl(n.left)
            &&& avl(n.right)
        }
    }
}

pub(crate) proof fn lemma_copies<T: TotalOrder>(k: T, n: nat)
    ensures
        copies(k, n).len() == n,
        copies(k, n).count(k) == n,
        forall|x: T| x != k ==> #[trigger] copies(k, n).count(x) == 0,
    decreases n,
{
    if n > 0 {
        lemma_copies(k, (n - 1) as nat);
    }
}

pub(crate) proof fn lemma_bag_node<T: TotalOrder>(n: Node<T>)
    ensures
        bag(Some(Box::new(n))).len() == bag(n.left).len() + bag(n.right).len() + n.counter,
        forall|x: T| #[trigger] bag(Some(Box::new(n))).count(x)
            == bag(n.left).count(x) + bag(n.right).count(x) + (if x == n.value { n.counter as nat } else { 0 }),
{
    lemma_copies(n.value, n.counter as nat);
}

pub(crate) proof fn lemma_remove_len<T: TotalOrder>(m: Multiset<T>, v: T)
    ensures
        m.remove(v).len() <= m.len(),
        m.count(v) > 0 ==> m.remove(v).len() + 1 == m.len(),
        m.count(v) == 0 ==> m.remove(v) =~= m,
{
    if m.count(v) > 0 {
        assert(Multiset::singleton(v).subset_of(m));
    } else {
        assert(m.remove(v) =~= m);
    }
}

/// Levels of a subtree, read from its cached height.
pub(crate) fn ht<T: TotalOrder>(t: &Option<Box<Node<T>>>) -> (r: usize)
    requires
        wf(*t),
        bag(*t).len() <= usize::MAX,
    ensures
        r == levels(*t),
{
    match t {
        None => 0,
        Some(n) => {
            proof {
                lemma_wf_split(*t);
                lemma_levels_bounded(*t);
            }
            n.height + 1
        },
    }
}

impl<T: TotalOrder> Node<T> {
    pub(crate) fn new(value: T, serial: u64) -> (r: Node<T>)
        ensures
            r.value == value,
            r.serial == serial,
            r.counter == 1,
            r.left.is_none(),
            r.right.is_none(),
            wf(Some(Box::new(r))),
    {
        let r = Node { value, serial, height: 0, counter: 1, left: None, right: None };
        proof {
            assert(levels(r.left) == 0);
            assert(bag(r.left) =~= Multiset::empty());
            assert(wf(r.left));
        }
        r
    }

    /// Recomputes the cached height from the children.
    pub(crate) fn adjust_height(&mut self)
        requires
            wf(old(self).left),
            wf(old(self).right),
            bag(old(self).left).len() <= usize::MAX,
            bag(old(self).right).len() <= usize::MAX,
        ensures
            *final(self) == (Node { height: final(self).height, ..*old(self) }),
            final(self).height == max_nat(levels(old(self).left), levels(old(self).right)),
    {
        let lh = ht(&self.left);
        let rh = ht(&self.right);
        self.height = if lh >= rh { lh } else { rh };
    }

    pub(crate) fn count_children(&self) -> (r: usize)
        ensures
            r == (if self.left.is_some() { 1usize } else { 0 }) + (if self.right.is_some() { 1usize } else { 0 }),
    {
        let mut ans: usize = 0;
        if self.left.is_some() {
            ans += 1;
        }
        if self.right.is_some() {
            ans += 1;
        }
        ans
    }
}

/// A node over `l` and `r` with its height computed from them.
pub open spec fn mk<T: TotalOrder>(l: Option<Box<Node<T>>>, value: T, serial: u64, counter: usize, r: Option<Box<Node<T>>>) -> Box<Node<T>> {
    Box::new(Node { value, serial, height: max_nat(levels(l), levels(r)) as usize, counter, left: l, right: r })
}

/// `n` after a right rotation: its left child takes its place.
pub open spec fn rot_right<T: TotalOrder>(n: Node<T>) -> Box<Node<T>> {
    let c = n.left.unwrap();
    mk(c.left, c.value, c.serial, c.counter, Some(mk(c.right, n.value, n.serial, n.counter, n.right)))
}

/// `n` after a left rotation: its right child takes its place.
pub open spec fn rot_left<T: TotalOrder>(n: Node<T>) -> Box<Node<T>> {
    let c = n.right.unwrap();
    mk(Some(mk(n.left, n.value, n.serial, n.counter, c.left)), c.value, c.serial, c.counter, c.right)
}

/// Promotes the left child of `node` into its place; the child's right
/// subtree moves under `node`.
pub(crate) fn rotate_right<T: TotalOrder>(node: Box<Node<T>>) -> (r: Box<Node<T>>)
    requires
        shape_ok(*node),
        node.left.is_some(),
        bag(Some(node)).len() <= usize::MAX,
    ensures
        wf(Some(r)),
        bag(Some(r)) =~= bag(Some(node)),
        r.value == node.left.unwrap().value,
        r.counter == node.left.unwrap().counter,
        r.left == node.left.unwrap().left,
        r.right.is_some(),
        r.right.unwrap().value == node.value,
        r.right.unwrap().counter == node.counter,
        r.right.unwrap().left == node.left.unwrap().right,
        r.right.unwrap().right == node.right,
        r == rot_right(*node),
{
    let ghost n0 = *node;
    let mut node = node;
    let mut child = node.left.take().unwrap();
    let ghost c0 = *child;
    proof {
        lemma_bag_node(n0);
        lemma_bag_node(c0);
    }
    node.left = child.right.take();
    node.adjust_height();
    let ghost n1 = *node;
    proof {
        lemma_bag_node(n1);
        assert forall|v: T| #[trigger] bag(n1.left).count(v) > 0 implies lt(v, n1.value) by {
            assert(bag(n0.left).count(v) > 0);
        }
        assert(wf(Some(Box::new(n1))));
        assert forall|v: T| #[trigger] bag(Some(Box::new(n1))).count(v) > 0 implies lt(c0.value, v) by {
            if v != n1.value && bag(n1.right).count(v) > 0 {
                assert(bag(n0.right).count(v) > 0);
                assert(bag(n0.left).count(c0.value) > 0);
            }
        }
    }
    child.right = Some(node);
    child.adjust_height();
    proof {
        lemma_bag_node(*child);
    }
    child
}

/// Promotes the right child of `node` into its place; the child's left
/// subtree moves under `node`.
pub(crate) fn rotate_left<T: TotalOrder>(node: Box<Node<T>>) -> (r: Box<Node<T>>)
    requires
        shape_ok(*node),
        node.right.is_some(),
        bag(Some(node)).len() <= usize::MAX,
    ensures
        wf(Some(r)),
        bag(Some(r)) =~= bag(Some(node)),
        r.value == node.right.unwrap().value,
        r.counter == node.right.unwrap().counter,
        r.right == node.right.unwrap().right,
        r.left.is_some(),
        r.left.unwrap().value == node.value,
        r.left.unwrap().counter == node.counter,
        r.left.unwrap().right == node.right.unwrap().left,
        r.left.unwrap().left == node.left,
        r == rot_left(*node),
{
    let ghost n0 = *node;
    let mut node = node;
    let mut child = node.right.take().unwrap();
    let ghost c0 = *child;
    proof {
        lemma_bag_node(n0);
        lemma_bag_node(c0);
    }
    node.right = child.left.take();
    node.adjust_height();
    let ghost n1 = *node;
    proof {
        lemma_bag_node(n1);
        assert forall|v: T| #[trigger] bag(n1.right).count(v) > 0 implies lt(n1.value, v) by {
            assert(bag(n0.right).count(v) > 0);
        }
        assert(wf(Some(Box::new(n1))));
        assert forall|v: T| #[trigger] bag(Some(Box::new(n1))).count(v) > 0 implies lt(v, c0.value) by {
            if v != n1.value && bag(n1.left).count(v) > 0 {
                assert(bag(n0.left).count(v) > 0);
                assert(bag(n0.right).count(c0.value) > 0);
            }
        }
    }
    child.left = Some(node);
    child.adjust_height();
    proof {
        lemma_bag_node(*child);
    }
    child
}


/// Whether `n` leans by two to one side through the inner subtree of the
/// taller child, so that a single rotation would not restore balance.
pub open spec fn zigzag<T: TotalOrder>(n: Node<T>) -> bool {
    ||| (levels(n.left) == levels(n.right) + 2 && n.left.is_some()
        && levels(n.left.unwrap().right) == levels(n.left.unwrap().left) + 1)
    ||| (levels(n.right) == levels(n.left) + 2 && n.right.is_some()
        && levels(n.right.unwrap().left) == levels(n.right.unwrap().right) + 1)
}

pub(crate) fn need_double_rot<T: TotalOrder>(node: &Node<T>) -> (r: bool)
    requires
        shape_ok(*node),
        bag(Some(Box::new(*node))).len() <= usize::MAX,
    ensures
        r == zigzag(*node),
{
    proof {
        lemma_bag_node(*node);
    }
    let lh = ht(&node.left);
    let rh = ht(&node.right);
    if lh >= 2 && lh - 2 == rh {
        if let Some(c) = &node.left {
            proof {
                lemma_bag_node(**c);
            }
            let (inner, outer) = (ht(&c.right), ht(&c.left));
            return inner >= 1 && inner - 1 == outer;
        }
    }
    if rh >= 2 && rh - 2 == lh {
        if let Some(c) = &node.right {
            proof {
                lemma_bag_node(**c);
            }
            let (inner, outer) = (ht(&c.left), ht(&c.right));
            return inner >= 1 && inner - 1 == outer;
        }
    }
    false
}

/// Restores the height difference at `node` after one of its subtrees
/// grew or shrank by one level, with a single or double rotation.
pub(crate) fn rebalance_node<T: TotalOrder>(node: Box<Node<T>>) -> (r: Box<Node<T>>)
    requires
        shape_ok(*node),
        avl(node.left),
        avl(node.right),
        levels(node.left) <= levels(node.right) + 2,
        levels(node.right) <= levels(node.left) + 2,
        bag(Some(node)).len() <= usize::MAX,
    ensures
        wf(Some(r)),
        avl(Some(r)),
        bag(Some(r)) =~= bag(Some(node)),
        levels(Some(r)) <= 1 + max_nat(levels(node.left), levels(node.right)),
        levels(Some(r)) >= max_nat(levels(node.left), levels(node.right)),
        levels(node.left) <= levels(node.right) + 1 && levels(node.right) <= levels(node.left) + 1
            ==> levels(Some(r)) == 1 + max_nat(levels(node.left), levels(node.right)),
        levels(node.left) <= levels(node.right) + 1 && levels(node.right) <= levels(node.left) + 1
            ==> r == mk(node.left, node.value, node.serial, node.counter, node.right),
        levels(node.left) == levels(node.right) + 2 && !zigzag(*node) ==> r == rot_right(*node),
        levels(node.left) == levels(node.right) + 2 && zigzag(*node)
            ==> r == rot_right(Node { left: Some(rot_left(*node.left.unwrap())), ..*node }),
        levels(node.right) == levels(node.left) + 2 && !zigzag(*node) ==> r == rot_left(*node),
        levels(node.right) == levels(node.left) + 2 && zigzag(*node)
            ==> r == rot_left(Node { right: Some(rot_right(*node.right.unwrap())), ..*node }),
        r == bal(*node),
{
    let ghost n0 = *node;
    proof {
        lemma_bag_node(n0);
    }
    let mut node = node;
    node.adjust_height();
    let lh = ht(&node.left);
    let rh = ht(&node.right);
    if lh >= 2 && lh - 2 == rh {
        if need_double_rot(&node) {
            let child = node.left.take().unwrap();
            proof {
                lemma_bag_node(*child);
            }
            let ghost c0 = *child;
            let rotated = rotate_left(child);
            proof {
                lemma_bag_node(*rotated);
                lemma_bag_node(*rotated.left.unwrap());
                lemma_bag_node(*c0.right.unwrap());
                let b = c0.right.unwrap();
                assert(avl(c0.left) && avl(c0.right));
                assert(avl(b.left) && avl(b.right));
                assert(avl(rotated.left));
            }
            node.left = Some(rotated);
        }
        proof {
            lemma_bag_node(*node);
        }
        let r = rotate_right(node);
        proof {
            lemma_bag_node(*r);
            lemma_bag_node(*r.right.unwrap());
            assert(avl(n0.left.unwrap().left) && avl(n0.left.unwrap().right));
            assert(avl(r.right));
            assert(avl(r.left));
        }
        r
    } else if rh >= 2 && rh - 2 == lh {
        if need_double_rot(&node) {
            let child = node.right.take().unwrap();
            proof {
                lemma_bag_node(*child);
            }
            let ghost c0 = *child;
            let rotated = rotate_right(child);
            proof {
                lemma_bag_node(*rotated);
                lemma_bag_node(*rotated.right.unwrap());
                lemma_bag_node(*c0.left.unwrap());
                let b = c0.left.unwrap();
                assert(avl(c0.left) && avl(c0.right));
                assert(avl(b.left) && avl(b.right));
                assert(avl(rotated.right));
            }
            node.right = Some(rotated);
        }
        proof {
            lemma_bag_node(*node);
        }
        let r = rotate_left(node);
        proof {
            lemma_bag_node(*r);
            lemma_bag_node(*r.left.unwrap());
            assert(avl(n0.right.unwrap().left) && avl(n0.right.unwrap().right));
            assert(avl(r.left));
            assert(avl(r.right));
        }
        r
    } else {
        node
    }
}


/// `t` with the count of the node holding `v` changed by `d`, and nothing
/// else changed.
pub open spec fn recount<T: TotalOrder>(t: Option<Box<Node<T>>>, v: T, d: int) -> Option<Box<Node<T>>>
    decreases t,
{
    match t {
        None => None,
        Some(n) => if n.value == v {
            Some(Box::new(Node { counter: (n.counter + d) as usize, ..*n }))
        } else if lt(v, n.value) {
            Some(Box::new(Node { left: recount(n.left, v, d), ..*n }))
        } else {
            Some(Box::new(Node { right: recount(n.right, v, d), ..*n }))
        },
    }
}

pub(crate) proof fn lemma_recount_levels<T: TotalOrder>(t: Option<Box<Node<T>>>, v: T, d: int)
    ensures
        levels(recount(t, v, d)) == levels(t),
    decreases t,
{
    if let Some(n) = t {
        lemma_recount_levels(n.left, v, d);
        lemma_recount_levels(n.right, v, d);
    }
}

/// The value and count of the node reached from `t` by following `path`
/// (`false` for left, `true` for right).
pub open spec fn node_at<T: TotalOrder>(t: Option<Box<Node<T>>>, path: Seq<bool>) -> Option<(T, nat)>
    decreases path.len(),
{
    match t {
        None => None,
        Some(n) => if path.len() == 0 {
            Some((n.value, n.counter as nat))
        } else if path[0] {
            node_at(n.right, path.drop_first())
        } else {
            node_at(n.left, path.drop_first())
        },
    }
}

/// The value and count of the node reached from `t` along `path[i..]`.
pub(crate) fn find_at<T: TotalOrder>(t: &Option<Box<Node<T>>>, path: &Vec<bool>, i: usize) -> (r: Option<(T, usize)>)
    requires
        i <= path.len(),
    ensures
        match node_at(*t, path@.subrange(i as int, path.len() as int)) {
            None => r is None,
            Some(e) => r matches Some(x) && x.0 == e.0 && x.1 == e.1,
        },
    decreases path.len() - i,
{
    match t {
        None => None,
        Some(n) => {
            if i == path.len() {
                return Some((n.value.duplicate(), n.counter));
            }
            proof {
                assert(path@.subrange(i as int, path.len() as int).drop_first()
                    =~= path@.subrange(i + 1, path.len() as int));
            }
            if path[i] {
                find_at(&n.right, path, i + 1)
            } else {
                find_at(&n.left, path, i + 1)
            }
        },
    }
}

/// `e` with the count changed by `d` where it holds `v`.
pub open spec fn recounted<T>(e: Option<(T, nat)>, v: T, d: int) -> Option<(T, nat)> {
    match e {
        None => None,
        Some(p) => Some((p.0, if p.0 == v { (p.1 + d) as nat } else { p.1 })),
    }
}

pub(crate) proof fn lemma_node_at_held<T: TotalOrder>(t: Option<Box<Node<T>>>, path: Seq<bool>)
    requires
        wf(t),
    ensures
        node_at(t, path) is Some ==> bag(t).count(node_at(t, path).unwrap().0) > 0,
    decreases path.len(),
{
    if let Some(n) = t {
        lemma_bag_node(*n);
        lemma_copies(n.value, n.counter as nat);
        if path.len() > 0 {
            lemma_node_at_held(n.left, path.drop_first());
            lemma_node_at_held(n.right, path.drop_first());
        }
    }
}

/// Changing the count of `v` changes nothing else along any path.
pub(crate) proof fn lemma_node_at_recount<T: TotalOrder>(t: Option<Box<Node<T>>>, v: T, d: int, path: Seq<bool>)
    requires
        wf(t),
        bag(t).count(v) > 0,
        bag(t).count(v) + d >= 0,
        bag(t).count(v) + d <= usize::MAX,
    ensures
        node_at(recount(t, v, d), path) == recounted(node_at(t, path), v, d),
    decreases path.len(),
{
    if let Some(n) = t {
        lemma_bag_node(*n);
        lemma_copies(n.value, n.counter as nat);
        if path.len() > 0 {
            let rest = path.drop_first();
            lemma_node_at_held(n.left, rest);
            lemma_node_at_held(n.right, rest);
            if n.value == v {
                assert(bag(n.left).count(v) == 0);
                assert(bag(n.right).count(v) == 0);
            } else if lt(v, n.value) {
                assert(bag(n.right).count(v) == 0);
                lemma_node_at_recount(n.left, v, d, rest);
            } else {
                assert(bag(n.left).count(v) == 0);
                lemma_node_at_recount(n.right, v, d, rest);
            }
        }
    }
}

/// `n` with its height difference restored: unchanged but for its height
/// when it is within balance, else a single rotation, or a double one
/// when the taller child leans inward.
pub open spec fn bal<T: TotalOrder>(n: Node<T>) -> Box<Node<T>> {
    if levels(n.left) == levels(n.right) + 2 {
        if zigzag(n) {
            rot_right(Node { left: Some(rot_left(*n.left.unwrap())), ..n })
        } else {
            rot_right(n)
        }
    } else if levels(n.right) == levels(n.left) + 2 {
        if zigzag(n) {
            rot_left(Node { right: Some(rot_right(*n.right.unwrap())), ..n })
        } else {
            rot_left(n)
        }
    } else {
        mk(n.left, n.value, n.serial, n.counter, n.right)
    }
}

/// The tree that inserting `v` into `t` gives: a copy more in the node
/// holding `v`, or a new leaf with serial `s`, rebalanced on every level
/// on the way back up.
pub open spec fn ins<T: TotalOrder>(t: Option<Box<Node<T>>>, v: T, s: u64) -> Box<Node<T>>
    decreases t,
{
    match t {
        None => mk(None, v, s, 1, None),
        Some(n) => if n.value == v {
            Box::new(Node { counter: (n.counter + 1) as usize, ..*n })
        } else if lt(v, n.value) {
            bal(Node { left: Some(ins(n.left, v, s)), ..*n })
        } else {
            bal(Node { right: Some(ins(n.right, v, s)), ..*n })
        },
    }
}

/// The subtree `n` without its rightmost node, rebalanced on the way back
/// up, and that node's value and count.
pub open spec fn take_max<T: TotalOrder>(n: Node<T>) -> (Option<Box<Node<T>>>, T, usize)
    decreases n,
{
    match n.right {
        None => (n.left, n.value, n.counter),
        Some(c) => {
            let (rest, v, k) = take_max(*c);
            (Some(bal(Node { right: rest, ..n })), v, k)
        },
    }
}

/// The tree that erasing one copy of `v` from `t` gives: a copy fewer in
/// the node holding `v` while more remain; else that node leaves, its one
/// child taking its place, or, with two children, the in-order
/// predecessor's value and count moving into it and the predecessor's node
/// leaving. Every level on the way back up is rebalanced.
pub open spec fn del<T: TotalOrder>(t: Option<Box<Node<T>>>, v: T) -> Option<Box<Node<T>>>
    decreases t,
{
    match t {
        None => None,
        Some(n) => if n.value == v {
            if n.counter > 1 {
                Some(Box::new(Node { counter: (n.counter - 1) as usize, ..*n }))
            } else if n.left is None {
                n.right
            } else if n.right is None {
                n.left
            } else {
                let (rest, pv, pc) = take_max(*n.left.unwrap());
                Some(bal(Node { left: rest, value: pv, counter: pc, ..*n }))
            }
        } else if lt(v, n.value) {
            Some(bal(Node { left: del(n.left, v), ..*n }))
        } else {
            Some(bal(Node { right: del(n.right, v), ..*n }))
        },
    }
}

/// The serial of the node holding `v`, found by search from the root of `t`.
pub open spec fn serial_of<T: TotalOrder>(t: Option<Box<Node<T>>>, v: T) -> Option<u64>
    decreases t,
{
    match t {
        None => None,
        Some(n) => if n.value == v {
            Some(n.serial)
        } else if lt(v, n.value) {
            serial_of(n.left, v)
        } else {
            serial_of(n.right, v)
        },
    }
}

/// Adds one copy of `value` below `t`, rebalancing on the way back up.
pub(crate) fn insert_node<T: TotalOrder>(t: Option<Box<Node<T>>>, value: T, serial: u64) -> (r: Box<Node<T>>)
    requires
        wf(t),
        avl(t),
        bag(t).len() < usize::MAX,
    ensures
        wf(Some(r)),
        avl(Some(r)),
        bag(Some(r)) =~= bag(t).insert(value),
        levels(t) <= levels(Some(r)) <= levels(t) + 1,
        bag(t).count(value) > 0 ==> Some(r) == recount(t, value, 1),
        r == ins(t, value, serial),
    decreases t,
{
    match t {
        None => {
            let n = Node::new(value, serial);
            proof {
                lemma_bag_node(n);
            }
            Box::new(n)
        },
        Some(n) => {
            let ghost n0 = *n;
            proof {
                lemma_bag_node(n0);
            }
            let mut n = n;
            let ord = value.compare(&n.value);
            if matches!(ord, Cmp::Equal) {
                n.counter = n.counter + 1;
                proof {
                    lemma_bag_node(*n);
                }
                n
            } else if matches!(ord, Cmp::Less) {
                let ghost v = value;
                let sub = insert_node(n.left.take(), value, serial);
                n.left = Some(sub);
                proof {
                    lemma_bag_node(*n);
                    lemma_recount_levels(n0.left, v, 1);
                    if bag(t).count(v) > 0 {
                        assert(bag(n0.right).count(v) == 0);
                    }
                }
                rebalance_node(n)
            } else {
                let ghost v = value;
                let sub = insert_node(n.right.take(), value, serial);
                n.right = Some(sub);
                proof {
                    lemma_bag_node(*n);
                    lemma_recount_levels(n0.right, v, 1);
                    if bag(t).count(v) > 0 {
                        assert(bag(n0.left).count(v) == 0);
                    }
                }
                rebalance_node(n)
            }
        },
    }
}

/// Detaches the rightmost node below `n`, returning what remains of the
/// subtree together with that node's value and count.
pub(crate) fn remove_max<T: TotalOrder>(n: Box<Node<T>>) -> (r: (Option<Box<Node<T>>>, T, usize))
    requires
        wf(Some(n)),
        avl(Some(n)),
        bag(Some(n)).len() <= usize::MAX,
    ensures
        wf(r.0),
        avl(r.0),
        bag(Some(n)) =~= bag(r.0).add(copies(r.1, r.2 as nat)),
        r.2 >= 1,
        forall|v: T| #[trigger] bag(r.0).count(v) > 0 ==> lt(v, r.1),
        levels(r.0) <= levels(Some(n)) <= levels(r.0) + 1,
        r == take_max(*n),
    decreases n,
{
    let ghost n0 = *n;
    proof {
        lemma_bag_node(n0);
        lemma_copies(n0.value, n0.counter as nat);
    }
    let mut n = n;
    match n.right.take() {
        None => {
            proof {
                assert(bag(n0.right) =~= Multiset::empty());
            }
            let Node { value, counter, left, .. } = *n;
            (left, value, counter)
        },
        Some(rc) => {
            let ghost rc0 = *rc;
            let (rest, v, c) = remove_max(rc);
            proof {
                lemma_copies(v, c as nat);
                assert(bag(n0.right).count(v) > 0);
                assert forall|x: T| #[trigger] bag(rest).count(x) > 0 implies lt(n0.value, x) by {
                    assert(bag(n0.right).count(x) > 0);
                }
            }
            n.right = rest;
            proof {
                lemma_bag_node(*n);
            }
            let b = rebalance_node(n);
            proof {
                assert forall|x: T| #[trigger] bag(Some(b)).count(x) > 0 implies lt(x, v) by {
                    if bag(n0.left).count(x) > 0 {
                        assert(lt(x, n0.value));
                    }
                }
            }
            (Some(b), v, c)
        },
    }
}

/// Takes out the value of a node with two children that holds it once:
/// the in-order predecessor's value and count move into the node, and the
/// predecessor's own node leaves the left subtree; the node keeps its
/// serial and is then rebalanced.
pub(crate) fn erase_node_two_children<T: TotalOrder>(n: Box<Node<T>>) -> (r: Box<Node<T>>)
    requires
        wf(Some(n)),
        avl(Some(n)),
        n.left.is_some(),
        n.right.is_some(),
        n.counter == 1,
        bag(Some(n)).len() <= usize::MAX,
    ensures
        wf(Some(r)),
        avl(Some(r)),
        bag(Some(r)) =~= bag(Some(n)).remove(n.value),
        levels(Some(r)) <= levels(Some(n)) <= levels(Some(r)) + 1,
        ({
            let (rest, pv, pc) = take_max(*n.left.unwrap());
            r == bal(Node { left: rest, value: pv, counter: pc, ..*n })
        }),
        ({
            let pv = take_max(*n.left.unwrap()).1;
            &&& bag(n.left).count(pv) > 0
            &&& forall|v: T| #[trigger] bag(n.left).count(v) > 0 ==> v.le(pv)
        }),
{
    let ghost n0 = *n;
    proof {
        lemma_bag_node(n0);
        lemma_copies(n0.value, 1);
    }
    let mut n = n;
    let (rest, pv, pc) = remove_max(n.left.take().unwrap());
    proof {
        lemma_copies(pv, pc as nat);
        assert(bag(n0.left).count(pv) > 0);
    }
    n.left = rest;
    n.value = pv;
    n.counter = pc;
    proof {
        lemma_bag_node(*n);
        assert forall|v: T| #[trigger] bag(n0.left).count(v) > 0 implies v.le(pv) by {
            if v != pv {
                assert(bag(n.left).count(v) > 0);
            }
        }
    }
    rebalance_node(n)
}

/// Removes one copy of `value` from `t`; also returns how many copies
/// `t` held before.
#[verifier::rlimit(40)]
pub(crate) fn erase_node<T: TotalOrder>(t: Option<Box<Node<T>>>, value: T) -> (r: (Option<Box<Node<T>>>, usize))
    requires
        wf(t),
        avl(t),
        bag(t).len() <= usize::MAX,
    ensures
        wf(r.0),
        avl(r.0),
        bag(r.0) =~= bag(t).remove(value),
        r.1 == bag(t).count(value),
        levels(r.0) <= levels(t) <= levels(r.0) + 1,
        bag(t).count(value) >= 2 ==> r.0 == recount(t, value, -1),
        r.0 == del(t, value),
        t is Some && t.unwrap().value == value && t.unwrap().counter == 1 && t.unwrap().left is None
            ==> r.0 == t.unwrap().right,
        t is Some && t.unwrap().value == value && t.unwrap().counter == 1 && t.unwrap().right is None
            ==> r.0 == t.unwrap().left,
    decreases t,
{
    match t {
        None => (None, 0),
        Some(n) => {
            let ghost n0 = *n;
            proof {
                lemma_bag_node(n0);
                lemma_copies(n0.value, n0.counter as nat);
            }
            let mut n = n;
            let ord = value.compare(&n.value);
            if matches!(ord, Cmp::Equal) {
                let c = n.counter;
                if c > 1 {
                    n.counter = c - 1;
                    proof {
                        lemma_bag_node(*n);
                    }
                    return (Some(n), c);
                }
                let kids = n.count_children();
                if kids == 2 {
                    (Some(erase_node_two_children(n)), c)
                } else if n.left.is_some() {
                    (n.left.take(), c)
                } else {
                    (n.right.take(), c)
                }
            } else if matches!(ord, Cmp::Less) {
                let ghost v = value;
                let (sub, c) = erase_node(n.left.take(), value);
                proof {
                    lemma_remove_len(bag(n0.left), v);
                    lemma_recount_levels(n0.left, v, -1);
                    if bag(t).count(v) >= 2 {
                        assert(bag(n0.right).count(v) == 0);
                    }
                }
                n.left = sub;
                proof {
                    lemma_bag_node(*n);
                }
                (Some(rebalance_node(n)), c)
            } else {
                let ghost v = value;
                let (sub, c) = erase_node(n.right.take(), value);
                proof {
                    lemma_remove_len(bag(n0.right), v);
                    lemma_recount_levels(n0.right, v, -1);
                    if bag(t).count(v) >= 2 {
                        assert(bag(n0.left).count(v) == 0);
                    }
                }
                n.right = sub;
                proof {
                    lemma_bag_node(*n);
                }
                (Some(rebalance_node(n)), c)
            }
        },
    }
}


/// Number of copies of `value` below `t`.
pub(crate) fn find_node<T: TotalOrder>(t: &Option<Box<Node<T>>>, value: T) -> (r: usize)
    requires
        wf(*t),
        bag(*t).len() <= usize::MAX,
    ensures
        r == bag(*t).count(value),
    decreases t,
{
    match t {
        None => 0,
        Some(n) => {
            proof {
                lemma_bag_node(**n);
            }
            let ord = value.compare(&n.value);
            if matches!(ord, Cmp::Equal) {
                n.counter
            } else if matches!(ord, Cmp::Less) {
                find_node(&n.left, value)
            } else {
                find_node(&n.right, value)
            }
        },
    }
}

/// The serial of the node holding `value` below `t`.
pub(crate) fn find_serial<T: TotalOrder>(t: &Option<Box<Node<T>>>, value: T) -> (r: Option<u64>)
    ensures
        r == serial_of(*t, value),
    decreases t,
{
    match t {
        None => None,
        Some(n) => {
            let ord = value.compare(&n.value);
            if matches!(ord, Cmp::Equal) {
                Some(n.serial)
            } else if matches!(ord, Cmp::Less) {
                find_serial(&n.left, value)
            } else {
                find_serial(&n.right, value)
            }
        },
    }
}

/// In a well-formed subtree, search finds a node for exactly the held values.
pub(crate) proof fn lemma_serial_held<T: TotalOrder>(t: Option<Box<Node<T>>>, v: T)
    requires
        wf(t),
    ensures
        (serial_of(t, v) is Some) == (bag(t).count(v) > 0),
    decreases t,
{
    if let Some(n) = t {
        lemma_bag_node(*n);
        lemma_copies(n.value, n.counter as nat);
        lemma_serial_held(n.left, v);
        lemma_serial_held(n.right, v);
        if n.value != v {
            if lt(v, n.value) {
                assert(bag(n.right).count(v) == 0);
            } else {
                assert(bag(n.left).count(v) == 0);
            }
        }
    }
}

/// The leftmost value below `n`.
pub(crate) fn find_min_node<T: TotalOrder>(n: &Box<Node<T>>) -> (r: T)
    requires
        wf(Some(*n)),
    ensures
        bag(Some(*n)).count(r) > 0,
        forall|v: T| #[trigger] bag(Some(*n)).count(v) > 0 ==> r.le(v),
    decreases n,
{
    proof {
        lemma_bag_node(**n);
    }
    match &n.left {
        None => {
            proof {
                assert(bag(n.left) =~= Multiset::empty());
            }
            n.value.duplicate()
        },
        Some(l) => find_min_node(l),
    }
}

/// The rightmost value below `n`.
pub(crate) fn find_max_node<T: TotalOrder>(n: &Box<Node<T>>) -> (r: T)
    requires
        wf(Some(*n)),
    ensures
        bag(Some(*n)).count(r) > 0,
        forall|v: T| #[trigger] bag(Some(*n)).count(v) > 0 ==> v.le(r),
    decreases n,
{
    proof {
        lemma_bag_node(**n);
    }
    match &n.right {
        None => {
            proof {
                assert(bag(n.right) =~= Multiset::empty());
            }
            n.value.duplicate()
        },
        Some(rc) => find_max_node(rc),
    }
}

/// `n` copies of `k`, as a sequence.
pub open spec fn repeat<T: TotalOrder>(k: T, n: nat) -> Seq<T> {
    Seq::new(n, |i: int| k)
}

/// The values below `t` in order, each as often as it is held.
pub(crate) open spec fn items<T: TotalOrder>(t: Option<Box<Node<T>>>) -> Seq<T>
    decreases t,
{
    match t {
        None => Seq::empty(),
        Some(n) => items(n.left) + repeat(n.value, n.counter as nat) + items(n.right),
    }
}

/// The part of `items(t)` that is greater than `v`.
pub(crate) open spec fn above<T: TotalOrder>(t: Option<Box<Node<T>>>, v: T) -> Seq<T>
    decreases t,
{
    match t {
        None => Seq::empty(),
        Some(n) => if lt(v, n.value) {
            above(n.left, v) + repeat(n.value, n.counter as nat) + items(n.right)
        } else {
            above(n.right, v)
        },
    }
}

pub(crate) proof fn lemma_above_all<T: TotalOrder>(t: Option<Box<Node<T>>>, v: T)
    requires
        wf(t),
        forall|x: T| #[trigger] bag(t).count(x) > 0 ==> lt(v, x),
    ensures
        above(t, v) == items(t),
    decreases t,
{
    if let Some(n) = t {
        lemma_bag_node(*n);
        lemma_copies(n.value, n.counter as nat);
        assert(bag(t).count(n.value) > 0);
        assert forall|x: T| #[trigger] bag(n.left).count(x) > 0 implies lt(v, x) by {
            assert(bag(t).count(x) > 0);
        }
        lemma_above_all(n.left, v);
    }
}

pub(crate) proof fn lemma_above_none<T: TotalOrder>(t: Option<Box<Node<T>>>, v: T)
    requires
        wf(t),
        forall|x: T| #[trigger] bag(t).count(x) > 0 ==> x.le(v),
    ensures
        above(t, v) == Seq::<T>::empty(),
    decreases t,
{
    if let Some(n) = t {
        lemma_bag_node(*n);
        lemma_copies(n.value, n.counter as nat);
        assert(bag(t).count(n.value) > 0);
        assert forall|x: T| #[trigger] bag(n.right).count(x) > 0 implies x.le(v) by {
            assert(bag(t).count(x) > 0);
        }
        lemma_above_none(n.right, v);
    }
}

/// The smallest value below `t` that is greater than `v`.
pub(crate) fn successor<T: TotalOrder>(t: &Option<Box<Node<T>>>, v: T) -> (r: Option<T>)
    requires
        wf(*t),
    ensures
        match r {
            None => above(*t, v) == Seq::<T>::empty(),
            Some(k) => {
                &&& lt(v, k)
                &&& bag(*t).count(k) > 0
                &&& above(*t, v) == repeat(k, bag(*t).count(k)) + above(*t, k)
            },
        },
    decreases t,
{
    match t {
        None => None,
        Some(n) => {
            proof {
                lemma_bag_node(**n);
                lemma_copies(n.value, n.counter as nat);
            }
            if matches!(v.compare(&n.value), Cmp::Less) {
                match successor(&n.left, v) {
                    Some(k) => {
                        proof {
                            assert(lt(k, n.value));
                            assert(bag(n.right).count(k) == 0);
                            assert(above(*t, k) == above(n.left, k) + repeat(n.value, n.counter as nat) + items(n.right));
                            assert(above(*t, v) =~= repeat(k, bag(*t).count(k)) + above(*t, k));
                        }
                        Some(k)
                    },
                    None => {
                        proof {
                            lemma_above_all(n.right, n.value);
                            assert(bag(n.left).count(n.value) == 0);
                            assert(bag(n.right).count(n.value) == 0);
                            assert(above(*t, v) =~= repeat(n.value, bag(*t).count(n.value)) + above(*t, n.value));
                        }
                        Some(n.value.duplicate())
                    },
                }
            } else {
                let r = successor(&n.right, v);
                proof {
                    if let Some(k) = &r {
                        assert(lt(n.value, *k));
                        assert(bag(n.left).count(*k) == 0);
                    }
                }
                r
            }
        },
    }
}

} // verus!




