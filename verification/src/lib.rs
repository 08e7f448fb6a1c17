//! Conservation-sheaf flow on graphs: the combinatorial core.
//!
//! A conservation sheaf puts a stalk of conserved quantities on every vertex
//! of a graph and a flux operator on every edge; its sheaf Laplacian encodes
//! that flux in equals flux out at each vertex. This crate holds, with
//! machine-checked contracts, the integer side of that construction: the
//! graphs and their incidence lists, the assembly pattern of the block
//! Laplacian, and the bookkeeping that turns a run of spectral-gap samples
//! into a verdict.

pub mod graph;
pub mod laplacian;
pub mod spectral;
pub mod laplacian_laws;
