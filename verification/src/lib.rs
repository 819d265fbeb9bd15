pub mod adj_list;
pub mod aho_corasick;
pub mod algebra;
pub mod bitset;
pub mod cartesian_tree;
pub mod dsu;
pub mod factorize;
pub mod floor_sum;
pub mod instances;
pub mod integer;
pub mod layout;
pub mod lazy_segtree;
pub mod modint;
pub mod montgomery;
pub mod segtree;
pub mod simple_rng;
pub mod trie;
pub mod two_sat;
pub mod wrap32;

pub use algebra::Action;
pub use algebra::Monoid;
