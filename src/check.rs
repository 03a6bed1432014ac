use vstd::prelude::*;
use vstd::multiset::Multiset;
use crate::order::{Cmp, TotalOrder, lt};
use crate::node::{Node, avl, bag, lemma_bag_node, lemma_copies, levels, max_nat, wf};

verus! {

broadcast use vstd::multiset::group_multiset_axioms, crate::order::group_total_order;

/// Which part of the invariant a consistency check found broken.
#[derive(Debug, PartialEq, Eq, Clone, Copy)]
pub enum ConsistencyError {
    Count,
    Size,
    Order,
    Height,
    Balance,
    Extremes,
}

pub(crate) open spec fn in_range<T: TotalOrder>(v: T, lo: Option<T>, hi: Option<T>) -> bool {
    &&& (lo matches Some(a) ==> lt(a, v))
    &&& (hi matches Some(b) ==> lt(v, b))
}

/// Search order stated with an open interval that every value must lie in.
pub(crate) open spec fn within<T: TotalOrder>(t: Option<Box<Node<T>>>, lo: Option<T>, hi: Option<T>) -> bool
    decreases t,
{
    match t {
        None => true,
        Some(n) => {
            &&& in_range(n.value, lo, hi)
            &&& within(n.left, lo, Some(n.value))
            &&& within(n.right, Some(n.value), hi)
        },
    }
}

pub(crate) open spec fn counts_ok<T: TotalOrder>(t: Option<Box<Node<T>>>) -> bool
    decreases t,
{
    match t {
        None => true,
        Some(n) => n.counter >= 1 && counts_ok(n.left) && counts_ok(n.right),
    }
}

pub(crate) open spec fn heights_ok<T: TotalOrder>(t: Option<Box<Node<T>>>) -> bool
    decreases t,
{
    match t {
        None => true,
        Some(n) => {
            &&& n.height == max_nat(levels(n.left), levels(n.right))
            &&& heights_ok(n.left)
            &&& heights_ok(n.right)
        },
    }
}

proof fn lemma_within_bounds<T: TotalOrder>(t: Option<Box<Node<T>>>, lo: Option<T>, hi: Option<T>)
    requires
        within(t, lo, hi),
        counts_ok(t),
    ensures
        forall|v: T| #[trigger] bag(t).count(v) > 0 ==> in_range(v, lo, hi),
    decreases t,
{
    if let Some(n) = t {
        lemma_bag_node(*n);
        lemma_within_bounds(n.left, lo, Some(n.value));
        lemma_within_bounds(n.right, Some(n.value), hi);
    }
}

/// The invariant of a subtree, split into the parts that are checked one
/// by one.
proof fn lemma_wf_parts<T: TotalOrder>(t: Option<Box<Node<T>>>, lo: Option<T>, hi: Option<T>)
    ensures
        (wf(t) && forall|v: T| #[trigger] bag(t).count(v) > 0 ==> in_range(v, lo, hi))
            <==> (within(t, lo, hi) && counts_ok(t) && heights_ok(t)),
    decreases t,
{
    if let Some(n) = t {
        lemma_bag_node(*n);
        lemma_copies(n.value, n.counter as nat);
        lemma_wf_parts(n.left, lo, Some(n.value));
        lemma_wf_parts(n.right, Some(n.value), hi);
        if within(t, lo, hi) && counts_ok(t) && heights_ok(t) {
            lemma_within_bounds(t, lo, hi);
            lemma_within_bounds(n.left, lo, Some(n.value));
            lemma_within_bounds(n.right, Some(n.value), hi);
        }
        if wf(t) && forall|v: T| #[trigger] bag(t).count(v) > 0 ==> in_range(v, lo, hi) {
            assert(bag(t).count(n.value) > 0);
            assert forall|v: T| #[trigger] bag(n.left).count(v) > 0 implies in_range(v, lo, Some(n.value)) by {
                assert(bag(t).count(v) > 0);
            }
            assert forall|v: T| #[trigger] bag(n.right).count(v) > 0 implies in_range(v, Some(n.value), hi) by {
                assert(bag(t).count(v) > 0);
            }
        }
    }
}

/// The invariant of a subtree, without bounds on its values.
pub(crate) proof fn lemma_wf_split<T: TotalOrder>(t: Option<Box<Node<T>>>)
    ensures
        wf(t) <==> (within(t, None, None) && counts_ok(t) && heights_ok(t)),
{
    lemma_wf_parts(t, None, None);
}

pub(crate) proof fn lemma_levels_bounded<T: TotalOrder>(t: Option<Box<Node<T>>>)
    requires
        counts_ok(t),
    ensures
        levels(t) <= bag(t).len(),
    decreases t,
{
    if let Some(n) = t {
        lemma_bag_node(*n);
        lemma_levels_bounded(n.left);
        lemma_levels_bounded(n.right);
    }
}

pub(crate) fn dfs_counts_correct<T: TotalOrder>(t: &Option<Box<Node<T>>>) -> (r: bool)
    ensures
        r == counts_ok(*t),
    decreases t,
{
    match t {
        None => true,
        Some(n) => n.counter >= 1 && dfs_counts_correct(&n.left) && dfs_counts_correct(&n.right),
    }
}

/// The number of values held below `t`, or `None` where it exceeds `usize`.
pub(crate) fn dfs_size_correct<T: TotalOrder>(t: &Option<Box<Node<T>>>) -> (r: Option<usize>)
    ensures
        r == if bag(*t).len() <= usize::MAX { Some(bag(*t).len() as usize) } else { None::<usize> },
    decreases t,
{
    match t {
        None => Some(0),
        Some(n) => {
            proof {
                lemma_bag_node(**n);
            }
            let l = dfs_size_correct(&n.left)?;
            let r = dfs_size_correct(&n.right)?;
            let s = l.checked_add(r)?;
            s.checked_add(n.counter)
        },
    }
}

pub(crate) fn dfs_is_order_correct<T: TotalOrder>(t: &Option<Box<Node<T>>>, min_value: Option<T>, max_value: Option<T>) -> (r: bool)
    ensures
        r == within(*t, min_value, max_value),
    decreases t,
{
    match t {
        None => true,
        Some(n) => {
            if let Some(max) = &max_value {
                if !matches!(n.value.compare(max), Cmp::Less) {
                    return false;
                }
            }
            if let Some(min) = &min_value {
                if !matches!(n.value.compare(min), Cmp::Greater) {
                    return false;
                }
            }
            dfs_is_order_correct(&n.left, min_value, Some(n.value.duplicate()))
                && dfs_is_order_correct(&n.right, Some(n.value.duplicate()), max_value)
        },
    }
}

/// The levels of `t` when every cached height below it is correct and the
/// count of levels fits in `usize`; `None` otherwise.
pub(crate) fn dfs_is_node_height_correct<T: TotalOrder>(t: &Option<Box<Node<T>>>) -> (r: Option<usize>)
    ensures
        r == if heights_ok(*t) && levels(*t) <= usize::MAX { Some(levels(*t) as usize) } else { None::<usize> },
    decreases t,
{
    match t {
        None => Some(0),
        Some(n) => {
            let l = dfs_is_node_height_correct(&n.left);
            let r = dfs_is_node_height_correct(&n.right);
            match (l, r) {
                (Some(lh), Some(rh)) => {
                    let h = if lh >= rh { lh } else { rh };
                    if n.height == h && h < usize::MAX {
                        Some(h + 1)
                    } else {
                        None
                    }
                },
                _ => None,
            }
        },
    }
}

pub(crate) fn dfs_is_balanced<T: TotalOrder>(t: &Option<Box<Node<T>>>) -> (r: bool)
    requires
        heights_ok(*t),
        levels(*t) <= usize::MAX,
    ensures
        r == avl(*t),
    decreases t,
{
    match t {
        None => true,
        Some(n) => {
            let lh: usize = match &n.left {
                None => 0,
                Some(c) => {
                    proof {
                        assert(heights_ok(n.left));
                        assert(c.height + 1 == levels(n.left));
                    }
                    c.height + 1
                },
            };
            let rh: usize = match &n.right {
                None => 0,
                Some(c) => {
                    proof {
                        assert(heights_ok(n.right));
                        assert(c.height + 1 == levels(n.right));
                    }
                    c.height + 1
                },
            };
            let close = if lh >= rh { lh - rh <= 1 } else { rh - lh <= 1 };
            close && dfs_is_balanced(&n.left) && dfs_is_balanced(&n.right)
        },
    }
}

} // verus!
