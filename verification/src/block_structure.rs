//! What a block is: a list of labels closed under hopping, each found by a
//! hop from another, and the packed upper triangle of the Hamiltonian
//! restricted to those labels.

use vstd::prelude::*;
use crate::array_utils::{packed_index, triangular};
use crate::fock_space::{label_abs, linked_labels, Hubbard};
use crate::label_list::has_pattern;

verus! {

/// Whether `label` is, sign included, linked to a label of the list.
pub open spec fn found_from(n_sites: u32, s: Seq<i32>, label: i32) -> bool {
    exists|from: i32| s.contains(from) && #[trigger] linked_labels(n_sites, from).contains(label)
}

/// Every label of the list but `seed` is, sign included, linked to a label
/// of the list.
pub open spec fn found_by_hops(n_sites: u32, seed: i32, s: Seq<i32>) -> bool {
    forall|label: i32| #[trigger] s.contains(label) ==> label == seed || found_from(n_sites, s, label)
}

impl Hubbard {
    /// The matrix element of the Hamiltonian between the states `row` and
    /// `col`: the interaction on the diagonal, the hopping amplitude where
    /// one hop takes `col` to the occupation pattern of `row`, zero
    /// elsewhere.
    pub open spec fn matrix_entry(&self, row: i32, col: i32) -> i64 {
        if row == col {
            self.interaction(col) as i64
        } else if has_pattern(linked_labels(self.n_sites, col), label_abs(row)) {
            self.t as i64
        } else {
            0i64
        }
    }

    /// `elems` is the column-major packed upper triangle of the matrix
    /// whose rows and columns are the first `columns` labels of `states`.
    pub open spec fn is_packed_block(&self, states: Seq<i32>, elems: Seq<i64>, columns: int) -> bool {
        &&& elems.len() == triangular(columns as nat)
        &&& forall|i: nat, j: nat|
            i <= j < columns ==> elems[#[trigger] packed_index(i, j) as int] == self.matrix_entry(
                states[i as int],
                states[j as int],
            )
    }

    /// Every label linked to one of the first `count` labels of `states`
    /// has its occupation pattern in `states`.
    pub open spec fn closed_under_hops(&self, states: Seq<i32>, count: int) -> bool {
        forall|j: int, k: int|
            0 <= j < count && 0 <= k < linked_labels(self.n_sites, states[j]).len()
                ==> has_pattern(
                states,
                label_abs(#[trigger] linked_labels(self.n_sites, states[j])[k]),
            )
    }
}

} // verus!
