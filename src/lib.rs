pub mod bitops;
pub mod graph;
mod subindex;
pub mod symbol;
