use vstd::prelude::*;
use vstd::multiset::Multiset;
use crate::check::{
    ConsistencyError, dfs_counts_correct, dfs_is_balanced, dfs_is_node_height_correct,
    dfs_is_order_correct, dfs_size_correct, lemma_levels_bounded, lemma_wf_split,
};
use crate::order::{Cmp, TotalOrder, lt};
use crate::node::{
    Node, above, avl, bag, copies, del, erase_node, find_at, find_serial, ins, lemma_serial_held,
    serial_of, find_max_node, find_min_node, find_node, insert_node,
    items, levels, lemma_above_all, lemma_node_at_recount, recounted, lemma_above_none, lemma_bag_node, lemma_copies,
    lemma_remove_len, repeat, successor, wf,
};

verus! {

broadcast use vstd::multiset::group_multiset_axioms, crate::order::group_total_order;

/// `x` is held in `m` and no value of `m` is smaller.
pub open spec fn is_min_of<T: TotalOrder>(m: Multiset<T>, x: T) -> bool {
    &&& m.count(x) > 0
    &&& forall|v: T| #[trigger] m.count(v) > 0 ==> x.le(v)
}

/// `x` is held in `m` and no value of `m` is larger.
pub open spec fn is_max_of<T: TotalOrder>(m: Multiset<T>, x: T) -> bool {
    &&& m.count(x) > 0
    &&& forall|v: T| #[trigger] m.count(v) > 0 ==> v.le(x)
}

/// An ordered multiset of values, kept in a height-balanced search
/// tree with one node per distinct value and a count in each node. The
/// smallest and largest values are cached.
pub struct MultiAVL<T: TotalOrder> {
    root: Option<Box<Node<T>>>,
    next_serial: u64,
    size: usize,
    least: Option<T>,
    greatest: Option<T>,
}

impl<T: TotalOrder> View for MultiAVL<T> {
    type V = Multiset<T>;

    closed spec fn view(&self) -> Multiset<T> {
        bag(self.root)
    }
}

/// A forward cursor over a `MultiAVL`. It stands at a node, named by its
/// value and serial, and remembers how many of its copies were already
/// handed out. If a step finds no node with that value and serial (the node
/// was removed), the cursor is exhausted for good.
pub struct MultiAVLTreeIter<T: TotalOrder> {
    now: Option<T>,
    serial: u64,
    counter: usize,
}

impl<T: TotalOrder> MultiAVL<T> {
    /// The tree's invariant: search order, correct heights, balance at every
    /// node, the size equal to the number of held values, and both cached
    /// extremes correct.
    pub closed spec fn wf(&self) -> bool {
        &&& wf(self.root)
        &&& avl(self.root)
        &&& self.size == bag(self.root).len()
        &&& match self.least {
            None => bag(self.root).len() == 0,
            Some(x) => is_min_of(bag(self.root), x),
        }
        &&& match self.greatest {
            None => bag(self.root).len() == 0,
            Some(x) => is_max_of(bag(self.root), x),
        }
    }

    /// The nodes of the tree, from its root.
    pub closed spec fn tree(&self) -> Option<Box<Node<T>>> {
        self.root
    }

    /// The serial the next created node receives.
    pub closed spec fn next_serial(&self) -> u64 {
        self.next_serial
    }

    /// The value and count of the node reached from the root by following
    /// `path` (`false` for left, `true` for right); `None` past a leaf.
    pub open spec fn node_at(&self, path: Seq<bool>) -> Option<(T, nat)> {
        crate::node::node_at(self.tree(), path)
    }

    /// The held values in ascending order, each as often as it is held.
    pub closed spec fn ordered_items(&self) -> Seq<T> {
        items(self.root)
    }

    /// An empty tree.
    pub fn new() -> (r: MultiAVL<T>)
        ensures
            r.wf(),
            r@ =~= Multiset::<T>::empty(),
            r.tree() is None,
            r.next_serial() == 0,
    {
        MultiAVL { root: None, next_serial: 0, size: 0, least: None, greatest: None }
    }

    /// How many values are held, copies included.
    pub fn size(&self) -> (r: usize)
        requires
            self.wf(),
        ensures
            r == self@.len(),
    {
        self.size
    }

    /// Whether no value is held.
    pub fn is_empty(&self) -> (r: bool)
        requires
            self.wf(),
        ensures
            r == (self@.len() == 0),
    {
        self.size == 0
    }

    /// Adds one copy of `value`.
    pub fn insert(&mut self, value: T)
        requires
            old(self).wf(),
            old(self)@.len() < usize::MAX,
        ensures
            final(self).wf(),
            final(self)@ =~= old(self)@.insert(value),
            old(self)@.count(value) > 0 ==> forall|p: Seq<bool>|
                #[trigger] final(self).node_at(p) == recounted(old(self).node_at(p), value, 1),
            final(self).tree() == Some(ins(old(self).tree(), value, old(self).next_serial())),
            final(self).next_serial() == if old(self).next_serial() < u64::MAX {
                (old(self).next_serial() + 1) as u64
            } else {
                0
            },
    {
        let ghost t0 = self.root;
        let ghost v = value;
        let lower = match &self.least {
            None => true,
            Some(m) => matches!(value.compare(m), Cmp::Less),
        };
        let higher = match &self.greatest {
            None => true,
            Some(m) => matches!(value.compare(m), Cmp::Greater),
        };
        if lower {
            self.least = Some(value.duplicate());
        }
        if higher {
            self.greatest = Some(value.duplicate());
        }
        let root = self.root.take();
        self.root = Some(insert_node(root, value, self.next_serial));
        self.next_serial = if self.next_serial < u64::MAX { self.next_serial + 1 } else { 0 };
        self.size = self.size + 1;
        proof {
            if bag(t0).count(v) > 0 {
                assert forall|p: Seq<bool>| #[trigger] self.node_at(p) == recounted(crate::node::node_at(t0, p), v, 1) by {
                    lemma_node_at_recount(t0, v, 1, p);
                }
            }
        }
    }

    /// Whether at least one copy of `value` is held.
    pub fn contains(&self, value: T) -> (r: bool)
        requires
            self.wf(),
        ensures
            r == (self@.count(value) > 0),
    {
        find_node(&self.root, value) > 0
    }

    /// Removes one copy of `value`; does nothing when none is held.
    pub fn erase(&mut self, value: T)
        requires
            old(self).wf(),
        ensures
            final(self).wf(),
            final(self)@ =~= old(self)@.remove(value),
            old(self)@.count(value) >= 2 ==> forall|p: Seq<bool>|
                #[trigger] final(self).node_at(p) == recounted(old(self).node_at(p), value, -1),
            final(self).tree() == del(old(self).tree(), value),
            final(self).next_serial() == old(self).next_serial(),
    {
        let ghost before = bag(self.root);
        let ghost t0 = self.root;
        let ghost v = value;
        let (root, c) = erase_node(self.root.take(), value.duplicate());
        self.root = root;
        proof {
            lemma_remove_len(before, value);
            if bag(t0).count(v) >= 2 {
                assert forall|p: Seq<bool>| #[trigger] crate::node::node_at(self.root, p) == recounted(crate::node::node_at(t0, p), v, -1) by {
                    lemma_node_at_recount(t0, v, -1, p);
                }
            }
        }
        if c > 0 {
            self.size = self.size - 1;
            if c == 1 {
                let was_least = match &self.least {
                    None => false,
                    Some(m) => matches!(value.compare(m), Cmp::Equal),
                };
                let was_greatest = match &self.greatest {
                    None => false,
                    Some(m) => matches!(value.compare(m), Cmp::Equal),
                };
                if was_least {
                    self.least = self.find_min();
                }
                if was_greatest {
                    self.greatest = self.find_max();
                }
            }
        }
    }

    /// Removes one copy of the value that `iter` would yield next; does
    /// nothing when it would yield nothing.
    pub fn erase_iter(&mut self, iter: MultiAVLTreeIter<T>)
        requires
            old(self).wf(),
        ensures
            final(self).wf(),
            ({
                let rest = iter.remaining(old(self));
                &&& final(self)@ =~= if rest.len() > 0 {
                    old(self)@.remove(rest[0])
                } else {
                    old(self)@
                }
                &&& final(self).tree() == if rest.len() > 0 {
                    del(old(self).tree(), rest[0])
                } else {
                    old(self).tree()
                }
            }),
            final(self).next_serial() == old(self).next_serial(),
    {
        if let Some(v) = iter.now {
            let live = match find_serial(&self.root, v.duplicate()) {
                Some(s) => s == iter.serial,
                None => false,
            };
            proof {
                lemma_serial_held(self.root, v);
                lemma_remove_len(self@, v);
            }
            if live {
                self.erase(v);
            }
        }
    }

    /// Walks left from the root to the smallest value.
    fn find_min(&self) -> (r: Option<T>)
        requires
            wf(self.root),
        ensures
            match r {
                None => bag(self.root).len() == 0,
                Some(x) => is_min_of(bag(self.root), x),
            },
    {
        match &self.root {
            None => None,
            Some(n) => Some(find_min_node(n)),
        }
    }

    /// Walks right from the root to the largest value.
    fn find_max(&self) -> (r: Option<T>)
        requires
            wf(self.root),
        ensures
            match r {
                None => bag(self.root).len() == 0,
                Some(x) => is_max_of(bag(self.root), x),
            },
    {
        match &self.root {
            None => None,
            Some(n) => Some(find_max_node(n)),
        }
    }

    /// Walks the whole tree and reports the first part of the invariant
    /// that does not hold, if any.
    pub fn check_consistent(&self) -> (r: Result<(), ConsistencyError>)
        ensures
            r.is_ok() == self.wf(),
    {
        proof {
            lemma_wf_split(self.root);
        }
        if !dfs_counts_correct(&self.root) {
            return Err(ConsistencyError::Count);
        }
        match dfs_size_correct(&self.root) {
            Some(n) => {
                if n != self.size {
                    return Err(ConsistencyError::Size);
                }
            },
            None => return Err(ConsistencyError::Size),
        }
        if !dfs_is_order_correct(&self.root, None, None) {
            return Err(ConsistencyError::Order);
        }
        if dfs_is_node_height_correct(&self.root).is_none() {
            proof {
                lemma_levels_bounded(self.root);
            }
            return Err(ConsistencyError::Height);
        }
        if !dfs_is_balanced(&self.root) {
            return Err(ConsistencyError::Balance);
        }
        let same_min = match (&self.least, self.find_min()) {
            (None, None) => true,
            (Some(a), Some(b)) => matches!(a.compare(&b), Cmp::Equal),
            _ => false,
        };
        let same_max = match (&self.greatest, self.find_max()) {
            (None, None) => true,
            (Some(a), Some(b)) => matches!(a.compare(&b), Cmp::Equal),
            _ => false,
        };
        if !same_min || !same_max {
            return Err(ConsistencyError::Extremes);
        }
        Ok(())
    }

    /// The value and count of the node reached from the root by following
    /// `path` (`false` for left, `true` for right).
    pub fn entry_at(&self, path: &Vec<bool>) -> (r: Option<(T, usize)>)
        ensures
            match self.node_at(path@) {
                None => r is None,
                Some(e) => r matches Some(x) && x.0 == e.0 && x.1 == e.1,
            },
    {
        proof {
            assert(path@.subrange(0, path.len() as int) =~= path@);
        }
        find_at(&self.root, path, 0)
    }

    /// The height of the root: 0 for a single node and for an empty tree.
    pub fn height(&self) -> (r: usize)
        requires
            self.wf(),
        ensures
            r == if self.level_count() == 0 { 0 } else { (self.level_count() - 1) as nat },
    {
        match &self.root {
            None => 0,
            Some(n) => n.height,
        }
    }

    /// The smallest held value, read from the cache.
    pub fn min_value(&self) -> (r: Option<T>)
        requires
            self.wf(),
        ensures
            r.is_none() == (self@.len() == 0),
            r matches Some(x) ==> is_min_of(self@, x),
    {
        match &self.least {
            None => None,
            Some(m) => Some(m.duplicate()),
        }
    }

    /// The largest held value, read from the cache.
    pub fn max_value(&self) -> (r: Option<T>)
        requires
            self.wf(),
        ensures
            r.is_none() == (self@.len() == 0),
            r matches Some(x) ==> is_max_of(self@, x),
    {
        match &self.greatest {
            None => None,
            Some(m) => Some(m.duplicate()),
        }
    }
}


/// Every pair of positions of `s` is in ascending order.
pub open spec fn ascending<T: TotalOrder>(s: Seq<T>) -> bool {
    forall|i: int, j: int| 0 <= i < j < s.len() ==> s[i].le(s[j])
}

proof fn lemma_repeat_multiset<T: TotalOrder>(k: T, n: nat)
    ensures
        repeat(k, n).to_multiset() =~= copies(k, n),
    decreases n,
{
    broadcast use vstd::seq_lib::to_multiset_build, vstd::seq_lib::to_multiset_len;
    if n > 0 {
        lemma_repeat_multiset(k, (n - 1) as nat);
        assert(repeat(k, n) =~= repeat(k, (n - 1) as nat).push(k));
    } else {
        assert(repeat(k, n).to_multiset().len() == 0);
        vstd::multiset::lemma_multiset_empty_len(repeat(k, n).to_multiset());
    }
}

proof fn lemma_items_model<T: TotalOrder>(t: Option<Box<Node<T>>>)
    requires
        wf(t),
    ensures
        items(t).to_multiset() =~= bag(t),
        ascending(items(t)),
    decreases t,
{
    broadcast use vstd::seq_lib::lemma_multiset_commutative, vstd::seq_lib::to_multiset_contains;
    if let Some(n) = t {
        lemma_items_model(n.left);
        lemma_items_model(n.right);
        lemma_bag_node(*n);
        lemma_repeat_multiset(n.value, n.counter as nat);
        let a = items(n.left);
        let b = repeat(n.value, n.counter as nat);
        let c = items(n.right);
        assert(items(t) == a + b + c);
        assert((a + b + c).to_multiset() =~= a.to_multiset().add(b.to_multiset()).add(c.to_multiset()));
        assert forall|i: int| 0 <= i < a.len() implies lt(a[i], n.value) by {
            assert(a.contains(a[i]));
            assert(a.to_multiset().count(a[i]) > 0);
            assert(bag(n.left).count(a[i]) > 0);
        }
        assert forall|i: int| 0 <= i < c.len() implies lt(n.value, c[i]) by {
            assert(c.contains(c[i]));
            assert(c.to_multiset().count(c[i]) > 0);
            assert(bag(n.right).count(c[i]) > 0);
        }
        let s = a + b + c;
        assert forall|i: int, j: int| 0 <= i < j < s.len() implies s[i].le(s[j]) by {
            if i < a.len() {
                if j >= a.len() + b.len() {
                    assert(lt(n.value, c[j - a.len() - b.len()]));
                }
            } else if i < a.len() + b.len() {
                if j >= a.len() + b.len() {
                    assert(lt(n.value, c[j - a.len() - b.len()]));
                }
            }
        }
    }
}

/// The Fibonacci numbers: 0, 1, 1, 2, 3, 5, ...
pub open spec fn fib(n: nat) -> nat
    decreases n,
{
    if n < 2 {
        n
    } else {
        fib((n - 1) as nat) + fib((n - 2) as nat)
    }
}

proof fn lemma_fib_monotone(a: nat, b: nat)
    requires
        a <= b,
    ensures
        fib(a) <= fib(b),
    decreases b,
{
    if a < b {
        lemma_fib_monotone(a, (b - 1) as nat);
        if b >= 2 {
            assert(fib(b) == fib((b - 1) as nat) + fib((b - 2) as nat));
        }
    }
}

/// A balanced subtree with `h` levels has at least `fib(h + 2) - 1` nodes,
/// each holding at least one value.
proof fn lemma_levels_log<T: TotalOrder>(t: Option<Box<Node<T>>>)
    requires
        wf(t),
        avl(t),
    ensures
        fib(levels(t) + 2) <= bag(t).len() + 1,
    decreases t,
{
    assert(fib(0) == 0 && fib(1) == 1);
    assert(fib(2) == 1);
    assert(fib(3) == 2);
    match t {
        None => {},
        Some(n) => {
            lemma_bag_node(*n);
            lemma_levels_log(n.left);
            lemma_levels_log(n.right);
            let h = levels(t);
            let hl = levels(n.left);
            let hr = levels(n.right);
            if h >= 2 {
                assert(fib(h + 2) == fib(h + 1) + fib(h));
                if hl + 1 == h {
                    lemma_fib_monotone(h, hr + 2);
                } else {
                    lemma_fib_monotone(h, hl + 2);
                }
            }
        },
    }
}

/// The in-order sequence of a subtree starts with every copy of its
/// smallest value, followed by everything greater.
proof fn lemma_items_from_min<T: TotalOrder>(t: Option<Box<Node<T>>>, m: T)
    requires
        wf(t),
        is_min_of(bag(t), m),
    ensures
        items(t) == repeat(m, bag(t).count(m)) + above(t, m),
    decreases t,
{
    if let Some(n) = t {
        lemma_bag_node(*n);
        lemma_copies(n.value, n.counter as nat);
        assert(bag(t).count(n.value) > 0);
        if n.value == m {
            if n.left.is_some() {
                let l = *n.left.unwrap();
                assert(wf(n.left));
                assert(l.counter >= 1);
                lemma_bag_node(l);
                lemma_copies(l.value, l.counter as nat);
                assert(bag(n.left).count(l.value) > 0);
                assert(bag(t).count(l.value) > 0);
            }
            assert(n.left.is_none());
            assert(items(n.left) =~= Seq::<T>::empty());
            assert(bag(n.right).count(m) == 0);
            lemma_above_all(n.right, m);
            assert(items(t) =~= repeat(m, bag(t).count(m)) + above(t, m));
        } else {
            assert(lt(m, n.value));
            assert(bag(n.right).count(m) == 0);
            assert forall|v: T| #[trigger] bag(n.left).count(v) > 0 implies m.le(v) by {
                assert(bag(t).count(v) > 0);
            }
            lemma_items_from_min(n.left, m);
            assert(items(t) =~= repeat(m, bag(t).count(m)) + above(t, m));
        }
    }
}

impl<T: TotalOrder> MultiAVL<T> {
    /// Number of levels: 0 for an empty tree, 1 for a single node.
    pub closed spec fn level_count(&self) -> nat {
        levels(self.root)
    }

    /// A tree of `h` levels holds at least `fib(h + 2) - 1` values, so its
    /// height grows with the logarithm of its size: 1000 values take at
    /// most 14 levels.
    pub proof fn lemma_height_logarithmic(&self)
        requires
            self.wf(),
        ensures
            fib(self.level_count() + 2) <= self@.len() + 1,
            forall|k: nat| self@.len() + 1 < #[trigger] fib(k) ==> self.level_count() + 2 < k,
    {
        lemma_levels_log(self.root);
        assert forall|k: nat| self@.len() + 1 < #[trigger] fib(k) implies self.level_count() + 2 < k by {
            if self.level_count() + 2 >= k {
                lemma_fib_monotone(k, self.level_count() + 2);
            }
        }
    }

    /// The values that a full walk yields come in ascending order, each as
    /// often as it is held, and there are `size()` of them.
    pub proof fn lemma_ordered_items(&self)
        requires
            self.wf(),
        ensures
            ascending(self.ordered_items()),
            self.ordered_items().to_multiset() =~= self@,
            self.ordered_items().len() == self@.len(),
    {
        broadcast use vstd::seq_lib::to_multiset_len;
        lemma_items_model(self.root);
    }
}

impl<T: TotalOrder> MultiAVLTreeIter<T> {
    /// The value of the node the cursor stands at; `None` once it is
    /// exhausted.
    pub closed spec fn position(&self) -> Option<T> {
        self.now
    }

    /// The serial of the node the cursor stands at.
    pub closed spec fn serial(&self) -> u64 {
        self.serial
    }

    /// On any well-formed tree, the cursor yields nothing exactly when it is
    /// exhausted or no node of the tree has its value and serial, and
    /// otherwise starts with its value.
    pub proof fn lemma_remaining(&self, tree: &MultiAVL<T>)
        requires
            tree.wf(),
        ensures
            (self.remaining(tree).len() == 0) == (self.position() is None
                || serial_of(tree.tree(), self.position().unwrap()) != Some(self.serial())),
            self.remaining(tree).len() > 0 ==> self.remaining(tree)[0] == self.position().unwrap(),
    {
        if let Some(cur) = self.now {
            lemma_serial_held(tree.root, cur);
        }
    }

    /// What the cursor yields from here on when stepped over `tree`: the
    /// copies of its value not yet handed out, then every greater value
    /// in order; nothing once its node has left the tree.
    pub closed spec fn remaining(&self, tree: &MultiAVL<T>) -> Seq<T> {
        match self.now {
            None => Seq::empty(),
            Some(cur) => {
                let c = bag(tree.root).count(cur);
                if c == 0 || serial_of(tree.root, cur) != Some(self.serial) {
                    Seq::empty()
                } else {
                    let r: nat = if (self.counter as nat) < c { (c - self.counter + 1) as nat } else { 1 };
                    repeat(cur, r) + above(tree.root, cur)
                }
            },
        }
    }

    /// Yields the next value, or `None` once the cursor is exhausted or its
    /// value is no longer held by `tree`.
    pub fn next(&mut self, tree: &MultiAVL<T>) -> (r: Option<T>)
        requires
            tree.wf(),
        ensures
            ({
                let rest = old(self).remaining(tree);
                &&& r == if rest.len() == 0 { None } else { Some(rest[0]) }
                &&& final(self).remaining(tree) == if rest.len() == 0 { rest } else { rest.drop_first() }
            }),
            r is None ==> final(self).position() is None,
    {
        let cur = match &self.now {
            None => return None,
            Some(v) => v.duplicate(),
        };
        let c = find_node(&tree.root, cur.duplicate());
        let live = match find_serial(&tree.root, cur.duplicate()) {
            Some(s) => s == self.serial,
            None => false,
        };
        if c == 0 || !live {
            self.now = None;
            return None;
        }
        let ghost rest = self.remaining(tree);
        if self.counter < c {
            self.counter = self.counter + 1;
            proof {
                assert(self.remaining(tree) =~= rest.drop_first());
            }
            return Some(cur);
        }
        self.counter = 1;
        let nxt = successor(&tree.root, cur.duplicate());
        match nxt {
            None => {
                self.now = None;
            },
            Some(k) => {
                let ks = find_serial(&tree.root, k.duplicate());
                proof {
                    lemma_serial_held(tree.root, k);
                }
                self.serial = match ks {
                    Some(x) => x,
                    None => 0,
                };
                self.now = Some(k);
            },
        }
        proof {
            assert(self.remaining(tree) =~= rest.drop_first());
        }
        Some(cur)
    }
}

impl<T: TotalOrder> MultiAVL<T> {
    /// A cursor at the smallest value; exhausted at once on an empty tree.
    pub fn iter(&self) -> (r: MultiAVLTreeIter<T>)
        requires
            self.wf(),
        ensures
            r.remaining(self) == self.ordered_items(),
            self@.len() == 0 ==> r.position() is None,
            forall|m: T| #[trigger] is_min_of(self@, m)
                ==> r.position() == Some(m) && serial_of(self.tree(), m) == Some(r.serial()),
    {
        match self.min_iter() {
            Some(it) => it,
            None => MultiAVLTreeIter { now: None, serial: 0, counter: 0 },
        }
    }

    /// A cursor at the smallest value, if any value is held.
    pub fn min_iter(&self) -> (r: Option<MultiAVLTreeIter<T>>)
        requires
            self.wf(),
        ensures
            r.is_some() == (self@.len() > 0),
            r matches Some(it) ==> it.remaining(self) == self.ordered_items(),
            r.is_none() ==> self.ordered_items() == Seq::<T>::empty(),
            forall|m: T| #[trigger] is_min_of(self@, m) ==> (r matches Some(it) && it.position() == Some(m)
                && serial_of(self.tree(), m) == Some(it.serial())),
    {
        match &self.least {
            None => {
                proof {
                    if self.root.is_some() {
                        lemma_bag_node(*self.root.unwrap());
                    }
                }
                None
            },
            Some(m) => {
                let s = match find_serial(&self.root, m.duplicate()) {
                    Some(x) => x,
                    None => 0,
                };
                let it = MultiAVLTreeIter { now: Some(m.duplicate()), serial: s, counter: 1 };
                proof {
                    lemma_serial_held(self.root, *m);
                    lemma_items_from_min(self.root, *m);
                }
                Some(it)
            },
        }
    }

    /// A cursor at the largest value, if any value is held: it yields the
    /// copies of that value and then stops.
    pub fn max_iter(&self) -> (r: Option<MultiAVLTreeIter<T>>)
        requires
            self.wf(),
        ensures
            r.is_some() == (self@.len() > 0),
            forall|m: T| #[trigger] is_max_of(self@, m)
                ==> (r matches Some(it) && it.remaining(self) == repeat(m, self@.count(m))
                && it.position() == Some(m) && serial_of(self.tree(), m) == Some(it.serial())),
    {
        match &self.greatest {
            None => None,
            Some(m) => {
                let s = match find_serial(&self.root, m.duplicate()) {
                    Some(x) => x,
                    None => 0,
                };
                let it = MultiAVLTreeIter { now: Some(m.duplicate()), serial: s, counter: 1 };
                proof {
                    lemma_serial_held(self.root, *m);
                    lemma_above_none(self.root, *m);
                    assert(it.remaining(self) =~= repeat(*m, self@.count(*m)));
                }
                Some(it)
            },
        }
    }
}

} // verus!

