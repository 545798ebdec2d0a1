pub mod bitset;
pub mod heap_tree;
pub mod page_table;
pub mod paging;
pub mod regions;
