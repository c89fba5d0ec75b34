//! A best-fit allocator over one fixed-size byte arena, and the line-oriented
//! command language that drives it.
//!
//! The arena is split into blocks that are either free or allocated. Every
//! operation of [`MemoryManager`] keeps the blocks a partition of the arena:
//! no two overlap and together they cover every address.
//!
//! The contracts are stated over [`ManagerView`], the state of the allocator
//! as plain sequences and maps. What holds across operations is proved in
//! the modules `laws`, `runs` and `accounting`.

pub mod accounting;
pub mod block;
pub mod command;
pub mod dispatch;
pub mod free_index;
pub mod laws;
pub mod listing;
pub mod manager;
pub mod model;
pub mod order;
pub mod preservation;
pub mod runs;
pub mod sizing;

pub use block::MemoryBlock;
pub use block::MEMORY_SIZE;
pub use command::Command;
pub use command::Verb;
pub use dispatch::Reply;
pub use manager::MemoryError;
pub use manager::MemoryManager;
pub use model::ManagerView;
pub use model::Operation;
pub use sizing::next_largest;
