/// The clause syntax tree that the compiler reads.
pub mod ast;
/// Batch compilation, self-loop closure and flattening into arrays.
pub mod batch;
/// The graph arena with its interning tables.
pub mod builder;
/// Capacity checks: what a batch costs in nodes and edges.
pub mod cost;
/// Node tags and the graph store.
pub mod graph;
/// Laws relating several compilation steps.
pub mod laws;
/// Recursive compilation of terms, literals and clauses.
pub mod visitor;
