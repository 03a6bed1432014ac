mod check;
mod node;
mod order;
mod tree;

pub mod laws;

pub use check::ConsistencyError;
pub use node::{
    Node, bal, del, ins, levels, max_nat, mk, node_at, recount, recounted, repeat, rot_left, rot_right,
    serial_of, take_max, zigzag,
};
pub use order::{Cmp, TotalOrder, lt};
pub use tree::{MultiAVL, MultiAVLTreeIter, ascending, fib, is_max_of, is_min_of};
