pub mod doubling;
pub mod implicit_tree;
pub mod lazy_propagation;
pub mod lazy_segtree;
pub mod n_dim_acc;
pub mod segtree;
pub mod swag;
pub mod treap;
