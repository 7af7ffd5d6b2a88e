//! Exact diagonalization support for a Hubbard-type lattice model: bit-packed
//! Fock states, second-quantization operators, hopping-connected blocks and
//! the packed symmetric storage that dense eigensolvers consume.
//!
//! - [`fock_space`]: Fock states, their operators, and the model with its
//!   matrix elements, the search for one block and the sweep over the basis.
//! - [`array_utils`], [`dense`]: packed upper triangles and dense matrices.
//! - [`label_list`], [`site_pairs`]: sorted lists of labels and the pairs of
//!   sites along which fermions hop.
//! - [`block_structure`], [`connectivity`]: what a block is, and hopping as
//!   a symmetric relation between occupation patterns.

pub mod array_utils;
pub mod block_structure;
pub mod connectivity;
pub mod dense;
pub mod fock_space;
pub mod label_list;
pub mod site_pairs;
