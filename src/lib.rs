pub mod key;
pub mod codec;
pub mod sorted_page;
pub mod node;
pub mod table;
pub mod laws;
pub mod pagetable;
pub mod route;
