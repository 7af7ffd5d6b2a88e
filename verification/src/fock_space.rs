//! Fock states of a lattice with one spin-up and one spin-down orbital per
//! site, and the second-quantization operators that act on them.
//!
//! A basis state is labelled by a signed integer. The bits of its absolute
//! value are the occupation numbers: orbital `k` of a lattice with `n` sites
//! sits at bit `2n - 1 - k`, so orbital 0 is the most significant bit. The
//! orbitals `0..n` are spin-up, the orbitals `n..2n` spin-down.

use vstd::prelude::*;
use crate::block_structure::{found_by_hops, found_from};
use crate::array_utils::{
    lemma_triangular_monotonic, lemma_triangular_step, lemma_triangular_zero, packed_index,
    triangular,
};
use crate::connectivity::{
    all_reached, holds_what_it_reaches, is_component, lemma_reaches_itself,
    lemma_reaches_one_more, lemma_reaches_symmetric, lemma_with_label_reached, reaches,
};
use crate::label_list::{
    all_bounded, all_valid, contains_pattern, has_pattern, insert_label, lemma_sorted_len_bound,
    lemma_with_label, lemma_with_label_patterns, lemma_with_label_valid, strictly_sorted,
    with_label,
};
use crate::site_pairs::{lemma_site_pair_list, site_pair_list, site_pairs};

verus! {

/// Largest number of sites whose labels fit a signed 32-bit integer.
pub const MAX_SITES: u32 = 15;

/// Absolute value of a label: the bare occupation pattern.
pub open spec fn label_abs(label: i32) -> u32 {
    if label < 0 {
        (-label) as u32
    } else {
        label as u32
    }
}

/// Number of basis states of a lattice with `n_sites` sites, `4^n_sites`.
pub open spec fn basis_size(n_sites: u32) -> u32 {
    1u32 << ((2 * n_sites) as u32)
}

/// The bit that holds the occupation of `orbital`.
pub open spec fn orbital_mask(n_sites: u32, orbital: int) -> u32 {
    1u32 << ((2 * n_sites - 1 - orbital) as u32)
}

/// A label whose occupation pattern lies inside the basis of `n_sites` sites.
pub open spec fn valid_label(n_sites: u32, label: i32) -> bool {
    n_sites <= MAX_SITES && label_abs(label) < basis_size(n_sites)
}

/// The basis of at most fifteen sites has at most `2^30` states.
pub proof fn lemma_basis_size_bounds(n_sites: u32)
    requires
        n_sites <= MAX_SITES,
    ensures
        1 <= basis_size(n_sites) <= 0x4000_0000,
{
    let t: u32 = (2 * n_sites) as u32;
    assert(1 <= (1u32 << t) <= 0x4000_0000) by (bit_vector)
        requires
            t <= 30,
    ;
}

/// Flipping one orbital's bit keeps an occupation pattern inside the basis.
pub proof fn lemma_toggle_in_basis(n_sites: u32, pattern: u32, orbital: int)
    requires
        n_sites <= MAX_SITES,
        0 <= orbital < 2 * n_sites,
        pattern < basis_size(n_sites),
    ensures
        pattern ^ orbital_mask(n_sites, orbital) < basis_size(n_sites),
        orbital_mask(n_sites, orbital) != 0,
        (pattern ^ orbital_mask(n_sites, orbital)) & orbital_mask(n_sites, orbital) != 0
            <==> pattern & orbital_mask(n_sites, orbital) == 0,
{
    let t: u32 = (2 * n_sites) as u32;
    let s: u32 = (2 * n_sites - 1 - orbital) as u32;
    assert((pattern ^ (1u32 << s)) < (1u32 << t) && (1u32 << s) != 0 && (((pattern ^ (1u32 << s))
        & (1u32 << s)) != 0 <==> (pattern & (1u32 << s)) == 0)) by (bit_vector)
        requires
            s < t,
            t <= 30,
            pattern < (1u32 << t),
    ;
}

/// Giving an occupation pattern a sign does not change the pattern.
pub proof fn lemma_phase_keeps_pattern(sign: i32, pattern: u32)
    requires
        sign == 1 || sign == -1,
        pattern <= 0x4000_0000,
    ensures
        -0x4000_0000 <= sign * pattern <= 0x4000_0000,
        label_abs((sign * pattern) as i32) == pattern,
        sign == 1 ==> sign * pattern == pattern,
        sign == -1 ==> sign * pattern == -pattern,
{
    if sign == 1 {
        assert(sign * pattern == pattern) by (nonlinear_arith)
            requires
                sign == 1,
        ;
    } else {
        assert(sign * pattern == -pattern) by (nonlinear_arith)
            requires
                sign == -1,
        ;
    }
}

/// Errors of the operators.
#[derive(Debug, Clone, Copy, PartialEq, Eq, Structural)]
pub enum FockError {
    /// The orbital index is negative or not below twice the number of sites.
    InvalidOrbital,
}

/// One basis state together with the phase picked up so far and a flag that
/// says whether an operator has sent it to the zero vector.
#[derive(Debug, Clone, Copy, PartialEq, Eq, Structural)]
pub struct FockState {
    /// Number of lattice sites.
    pub n_sites: u32,
    /// Signed label of the state.
    pub integer: i32,
    /// Whether the state is the zero vector.
    pub is_null: bool,
    /// Phase of the state, `1` or `-1`.
    pub sign: i32,
}

impl FockState {
    /// The label lies in the basis and the phase is a sign.
    pub open spec fn wf(&self) -> bool {
        &&& valid_label(self.n_sites, self.integer)
        &&& (self.sign == 1 || self.sign == -1)
    }

    /// Whether `index` names one of the `2 * n_sites` orbitals.
    pub open spec fn valid_orbital(&self, index: int) -> bool {
        0 <= index < 2 * self.n_sites
    }

    /// Whether the orbital `index` holds a fermion.
    pub open spec fn occupied(&self, index: int) -> bool {
        label_abs(self.integer) & orbital_mask(self.n_sites, index) != 0
    }

    /// The label after the occupation of orbital `index` has been flipped,
    /// carrying the state's phase.
    pub open spec fn toggled(&self, index: int) -> i32 {
        (self.sign * (label_abs(self.integer) ^ orbital_mask(self.n_sites, index))) as i32
    }

    /// The label with its sign replaced by the state's phase.
    pub open spec fn rephased(&self) -> i32 {
        (self.sign * label_abs(self.integer)) as i32
    }

    /// The zero vector that an operator leaves behind.
    pub open spec fn collapsed(self) -> FockState {
        FockState { integer: self.rephased(), is_null: true, ..self }
    }

    /// The state after a fermion has been created in orbital `index`.
    pub open spec fn created(self, index: int) -> FockState {
        if self.is_null || self.occupied(index) {
            self.collapsed()
        } else {
            FockState { integer: self.toggled(index), ..self }
        }
    }

    /// The state after the fermion in orbital `index` has been destroyed.
    pub open spec fn destroyed(self, index: int) -> FockState {
        if self.is_null || !self.occupied(index) {
            self.collapsed()
        } else {
            FockState { integer: self.toggled(index), ..self }
        }
    }

    /// The state after the occupation of orbital `index` has been measured.
    pub open spec fn counted(self, index: int) -> FockState {
        if self.is_null || !self.occupied(index) {
            FockState { is_null: true, ..self }
        } else {
            self
        }
    }

    /// Overlap of the state with the basis state `label`, as a spec value.
    pub open spec fn overlap(&self, label: i32) -> int {
        if !self.is_null && self.integer == label {
            1
        } else {
            0
        }
    }

    /// A state that no operator has touched, with the phase of its label.
    pub fn new(n_sites: u32, integer: i32) -> (state: FockState)
        requires
            valid_label(n_sites, integer),
        ensures
            state == (FockState { n_sites, integer, is_null: false, sign: label_sign(integer) }),
            state.wf(),
    {
        FockState { n_sites, integer, is_null: false, sign: if integer < 0 { -1 } else { 1 } }
    }

    /// Scalar product with the basis state `state`: `1` when this state is
    /// not the zero vector and carries that label, `0` otherwise.
    pub fn scalar(&self, state: i32) -> (overlap: i32)
        ensures
            overlap == self.overlap(state),
            overlap == 1 <==> !self.is_null && self.integer == state,
            overlap == 0 || overlap == 1,
    {
        if self.is_null {
            0
        } else if self.integer == state {
            1
        } else {
            0
        }
    }

    /// Mask of a valid orbital and the bare occupation pattern.
    fn mask_and_pattern(&self, index: u32) -> (pair: (u32, u32))
        requires
            self.wf(),
            self.valid_orbital(index as int),
        ensures
            pair.0 == orbital_mask(self.n_sites, index as int),
            pair.1 == label_abs(self.integer),
            pair.1 < basis_size(self.n_sites),
            pair.1 ^ pair.0 < basis_size(self.n_sites),
            basis_size(self.n_sites) <= 0x4000_0000,
    {
        proof {
            lemma_basis_size_bounds(self.n_sites);
            lemma_toggle_in_basis(self.n_sites, label_abs(self.integer), index as int);
        }
        let shift: u32 = 2 * self.n_sites - 1 - index;
        (1u32 << shift, abs_label(self.integer))
    }

    /// Creation operator on orbital `index`. An occupied orbital, or a state
    /// that is already the zero vector, gives the zero vector; otherwise the
    /// orbital is filled. An index outside the lattice is refused and the
    /// state is left as it was.
    pub fn create(&mut self, index: i32) -> (result: Result<(), FockError>)
        requires
            old(self).wf(),
        ensures
            match result {
                Ok(_) => old(self).valid_orbital(index as int) && *final(self) == old(
                    self,
                ).created(index as int),
                Err(e) => e == FockError::InvalidOrbital && !old(self).valid_orbital(index as int)
                    && *final(self) == *old(self),
            },
            final(self).wf(),
    {
        if index < 0 || index as u32 >= 2 * self.n_sites {
            return Err(FockError::InvalidOrbital);
        }
        let (mask, mut abs_state) = self.mask_and_pattern(index as u32);
        if abs_state & mask != 0 || self.is_null {
            self.is_null = true;
        } else {
            abs_state ^= mask;
        }
        proof {
            lemma_phase_keeps_pattern(self.sign, abs_state);
        }
        self.integer = self.sign * (abs_state as i32);
        Ok(())
    }

    /// Annihilation operator on orbital `index`. An empty orbital, or a state
    /// that is already the zero vector, gives the zero vector; otherwise the
    /// orbital is emptied. An index outside the lattice is refused and the
    /// state is left as it was.
    pub fn destroy(&mut self, index: i32) -> (result: Result<(), FockError>)
        requires
            old(self).wf(),
        ensures
            match result {
                Ok(_) => old(self).valid_orbital(index as int) && *final(self) == old(
                    self,
                ).destroyed(index as int),
                Err(e) => e == FockError::InvalidOrbital && !old(self).valid_orbital(index as int)
                    && *final(self) == *old(self),
            },
            final(self).wf(),
    {
        if index < 0 || index as u32 >= 2 * self.n_sites {
            return Err(FockError::InvalidOrbital);
        }
        let (mask, mut abs_state) = self.mask_and_pattern(index as u32);
        if abs_state & mask == 0 || self.is_null {
            self.is_null = true;
        } else {
            abs_state ^= mask;
        }
        proof {
            lemma_phase_keeps_pattern(self.sign, abs_state);
        }
        self.integer = self.sign * (abs_state as i32);
        Ok(())
    }

    /// Number operator on orbital `index`. An empty orbital, or a state that
    /// is already the zero vector, gives the zero vector; an occupied orbital
    /// leaves the state as it is. An index outside the lattice is refused.
    pub fn number(&mut self, index: u32) -> (result: Result<(), FockError>)
        requires
            old(self).wf(),
        ensures
            match result {
                Ok(_) => old(self).valid_orbital(index as int) && *final(self) == old(
                    self,
                ).counted(index as int),
                Err(e) => e == FockError::InvalidOrbital && !old(self).valid_orbital(index as int)
                    && *final(self) == *old(self),
            },
            final(self).wf(),
    {
        if index >= 2 * self.n_sites {
            return Err(FockError::InvalidOrbital);
        }
        let (mask, abs_state) = self.mask_and_pattern(index);
        if abs_state & mask == 0 || self.is_null {
            self.is_null = true;
        }
        Ok(())
    }

    /// Whether the orbital `index` holds a fermion.
    pub fn is_occupied(&self, index: u32) -> (occupied: bool)
        requires
            self.wf(),
            self.valid_orbital(index as int),
        ensures
            occupied == self.occupied(index as int),
    {
        let (mask, abs_state) = self.mask_and_pattern(index);
        abs_state & mask != 0
    }
}

/// Phase carried by a label: `-1` for a negative label, `1` otherwise.
pub open spec fn label_sign(label: i32) -> i32 {
    if label < 0 {
        -1i32
    } else {
        1i32
    }
}

/// Absolute value of a label.
pub fn abs_label(label: i32) -> (pattern: u32)
    requires
        label > i32::MIN,
    ensures
        pattern == label_abs(label),
{
    if label < 0 {
        (-label) as u32
    } else {
        label as u32
    }
}

/// Pauli exclusion: creating twice in the same orbital gives the zero vector.
pub proof fn lemma_create_twice_collapses(state: FockState, index: int)
    requires
        state.wf(),
        state.valid_orbital(index),
    ensures
        state.created(index).created(index).is_null,
{
    let pattern = label_abs(state.integer);
    lemma_basis_size_bounds(state.n_sites);
    lemma_toggle_in_basis(state.n_sites, pattern, index);
    lemma_phase_keeps_pattern(state.sign, pattern);
    lemma_phase_keeps_pattern(state.sign, pattern ^ orbital_mask(state.n_sites, index));
}

/// Destroying twice in the same orbital gives the zero vector.
pub proof fn lemma_destroy_twice_collapses(state: FockState, index: int)
    requires
        state.wf(),
        state.valid_orbital(index),
    ensures
        state.destroyed(index).destroyed(index).is_null,
{
    let pattern = label_abs(state.integer);
    lemma_basis_size_bounds(state.n_sites);
    lemma_toggle_in_basis(state.n_sites, pattern, index);
    lemma_phase_keeps_pattern(state.sign, pattern);
    lemma_phase_keeps_pattern(state.sign, pattern ^ orbital_mask(state.n_sites, index));
}

/// The operators keep a well-formed state well formed.
pub proof fn lemma_operators_keep_wf(state: FockState, index: int)
    requires
        state.wf(),
        state.valid_orbital(index),
    ensures
        state.created(index).wf(),
        state.destroyed(index).wf(),
        state.counted(index).wf(),
{
    let pattern = label_abs(state.integer);
    lemma_basis_size_bounds(state.n_sites);
    lemma_toggle_in_basis(state.n_sites, pattern, index);
    lemma_phase_keeps_pattern(state.sign, pattern);
    lemma_phase_keeps_pattern(state.sign, pattern ^ orbital_mask(state.n_sites, index));
}

/// A state that no operator has touched, as a spec value.
pub open spec fn fresh_state(n_sites: u32, label: i32) -> FockState {
    FockState { n_sites, integer: label, is_null: false, sign: label_sign(label) }
}

/// Whether both orbitals of `site` are occupied in the state `label`.
pub open spec fn doubly_occupied(n_sites: u32, label: i32, site: int) -> bool {
    fresh_state(n_sites, label).occupied(site) && fresh_state(n_sites, label).occupied(
        site + n_sites,
    )
}

/// Number of doubly occupied sites among the first `sites` sites.
pub open spec fn double_occupancy(n_sites: u32, label: i32, sites: int) -> int
    decreases sites,
{
    if sites <= 0 {
        0
    } else {
        double_occupancy(n_sites, label, sites - 1) + if doubly_occupied(
            n_sites,
            label,
            sites - 1,
        ) {
            1int
        } else {
            0int
        }
    }
}

/// Number of occupied orbitals strictly between the orbitals `lo` and `hi`.
pub open spec fn occupied_between(n_sites: u32, label: i32, lo: int, hi: int) -> int
    decreases hi - lo,
{
    if hi - lo <= 1 {
        0
    } else {
        occupied_between(n_sites, label, lo, hi - 1) + if fresh_state(n_sites, label).occupied(
            hi - 1,
        ) {
            1int
        } else {
            0int
        }
    }
}

/// Whether a pair of sites joins the two ends of the chain.
pub open spec fn is_boundary_pair(n_sites: u32, pair: (i32, i32)) -> bool {
    (pair.0 == 0 && pair.1 == n_sites - 1) || (pair.0 == n_sites - 1 && pair.1 == 0)
}

/// The state reached from `label` when a fermion hops from orbital `from`
/// to orbital `to`.
pub open spec fn hopped(n_sites: u32, label: i32, from: int, to: int) -> FockState {
    fresh_state(n_sites, label).destroyed(from).created(to)
}

/// The label produced by the hop from site `pair.1` to site `pair.0` in the
/// spin channel whose orbitals start at `offset`, if the hop is possible.
/// Across the boundary the label changes sign when an odd number of occupied
/// orbitals of the channel lies between the two ends.
pub open spec fn hop_label(n_sites: u32, label: i32, pair: (i32, i32), offset: int) -> Option<i32> {
    let ket = hopped(n_sites, label, pair.1 + offset, pair.0 + offset);
    if ket.is_null {
        None
    } else if is_boundary_pair(n_sites, pair) && occupied_between(
        n_sites,
        label,
        offset,
        offset + n_sites - 1,
    ) % 2 == 1 {
        Some((-ket.integer) as i32)
    } else {
        Some(ket.integer)
    }
}

/// A sorted list after a possible hop's label has joined it.
pub open spec fn with_hop(s: Seq<i32>, hop: Option<i32>) -> Seq<i32> {
    match hop {
        Some(label) => with_label(s, label),
        None => s,
    }
}

/// The labels reached from `label` by the hops along the first `count`
/// pairs of sites, spin up before spin down for each pair, sorted by
/// absolute value with each occupation pattern kept once.
pub open spec fn linked_upto(n_sites: u32, label: i32, count: int) -> Seq<i32>
    decreases count,
{
    if count <= 0 {
        Seq::empty()
    } else {
        let pair = site_pair_list(n_sites)[count - 1];
        with_hop(
            with_hop(linked_upto(n_sites, label, count - 1), hop_label(n_sites, label, pair, 0)),
            hop_label(n_sites, label, pair, n_sites as int),
        )
    }
}

/// The labels that one hop connects to `label`.
pub open spec fn linked_labels(n_sites: u32, label: i32) -> Seq<i32> {
    linked_upto(n_sites, label, site_pair_list(n_sites).len() as int)
}

/// The occupation pattern that the hop along the pair of sites number
/// `pair` produces, spin down if `down` and spin up if not, if the hop is
/// possible.
pub open spec fn hop_pattern(n_sites: u32, label: i32, pair: int, down: bool) -> Option<u32> {
    match hop_label(
        n_sites,
        label,
        site_pair_list(n_sites)[pair],
        if down {
            n_sites as int
        } else {
            0
        },
    ) {
        Some(l) => Some(label_abs(l)),
        None => None,
    }
}

/// Whether a hop along one of the first `count` pairs of sites takes the
/// state `label` to the occupation pattern `pattern`.
pub open spec fn reached_by_hop(n_sites: u32, label: i32, pattern: u32, count: int) -> bool {
    exists|pair: int, down: bool|
        0 <= pair < count && #[trigger] hop_pattern(n_sites, label, pair, down) == Some(pattern)
}

/// The labels linked to a state carry exactly the occupation patterns that
/// one hop reaches from it.
pub proof fn lemma_linked_patterns(n_sites: u32, label: i32, pattern: u32, count: int)
    requires
        valid_label(n_sites, label),
        count <= site_pair_list(n_sites).len(),
    ensures
        strictly_sorted(linked_upto(n_sites, label, count)),
        has_pattern(linked_upto(n_sites, label, count), pattern) <==> reached_by_hop(
            n_sites,
            label,
            pattern,
            count,
        ),
    decreases count,
{
    if count > 0 {
        lemma_linked_patterns(n_sites, label, pattern, count - 1);
        let pair = site_pair_list(n_sites)[count - 1];
        let start = linked_upto(n_sites, label, count - 1);
        let up = hop_label(n_sites, label, pair, 0);
        let down = hop_label(n_sites, label, pair, n_sites as int);
        if let Some(l) = up {
            lemma_with_label(start, l);
            lemma_with_label_patterns(start, l, pattern);
        }
        let middle = with_hop(start, up);
        if let Some(l) = down {
            lemma_with_label(middle, l);
            lemma_with_label_patterns(middle, l, pattern);
        }
        let full = linked_upto(n_sites, label, count);
        if reached_by_hop(n_sites, label, pattern, count) {
            let (k, spin) = choose|k: int, spin: bool|
                0 <= k < count && #[trigger] hop_pattern(n_sites, label, k, spin) == Some(pattern);
            if k < count - 1 {
                assert(reached_by_hop(n_sites, label, pattern, count - 1));
            }
            assert(has_pattern(full, pattern));
        }
        if has_pattern(full, pattern) {
            if has_pattern(start, pattern) {
                let (k, spin) = choose|k: int, spin: bool|
                    0 <= k < count - 1 && #[trigger] hop_pattern(n_sites, label, k, spin) == Some(
                        pattern,
                    );
                assert(hop_pattern(n_sites, label, k, spin) == Some(pattern));
            } else if up is Some && label_abs(up->0) == pattern {
                assert(hop_pattern(n_sites, label, count - 1, false) == Some(pattern));
            } else {
                assert(hop_pattern(n_sites, label, count - 1, true) == Some(pattern));
            }
        }
    } else {
        assert(linked_upto(n_sites, label, count).len() == 0);
    }
}

/// A label produced by a hop lies in the basis.
pub proof fn lemma_hop_label_valid(n_sites: u32, label: i32, pair: (i32, i32), offset: int)
    requires
        valid_label(n_sites, label),
        0 <= pair.0 < n_sites,
        0 <= pair.1 < n_sites,
        offset == 0 || offset == n_sites,
    ensures
        match hop_label(n_sites, label, pair, offset) {
            Some(l) => valid_label(n_sites, l),
            None => true,
        },
{
    let start = fresh_state(n_sites, label);
    lemma_operators_keep_wf(start, pair.1 + offset);
    lemma_operators_keep_wf(start.destroyed(pair.1 + offset), pair.0 + offset);
}

/// The labels and coefficients of each block of a list, as spec values.
pub open spec fn block_views(blocks: Seq<(Vec<i32>, Vec<i64>)>) -> Seq<(Seq<i32>, Seq<i64>)> {
    Seq::new(blocks.len(), |b: int| (blocks[b].0@, blocks[b].1@))
}

/// Some block of the list holds a label with the occupation pattern
/// `pattern`.
pub open spec fn covered(blocks: Seq<(Seq<i32>, Seq<i64>)>, pattern: u32) -> bool {
    exists|b: int| 0 <= b < blocks.len() && has_pattern(blocks[b].0, pattern)
}

/// No two blocks of the list share an occupation pattern.
pub open spec fn pairwise_disjoint(blocks: Seq<(Seq<i32>, Seq<i64>)>) -> bool {
    forall|a: int, b: int, pattern: u32|
        0 <= a < b < blocks.len() && has_pattern(blocks[a].0, pattern) ==> !has_pattern(
            blocks[b].0,
            pattern,
        )
}

/// Adding a block to a list covers the patterns of that block and those
/// that were covered before.
pub proof fn lemma_covered_push(
    blocks: Seq<(Seq<i32>, Seq<i64>)>,
    block: (Seq<i32>, Seq<i64>),
    pattern: u32,
)
    ensures
        covered(blocks.push(block), pattern) <==> covered(blocks, pattern) || has_pattern(
            block.0,
            pattern,
        ),
{
    let longer = blocks.push(block);
    if covered(longer, pattern) {
        let b = choose|b: int| 0 <= b < longer.len() && has_pattern(longer[b].0, pattern);
        if b < blocks.len() {
            assert(longer[b] == blocks[b]);
        }
    }
    if covered(blocks, pattern) {
        let b = choose|b: int| 0 <= b < blocks.len() && has_pattern(blocks[b].0, pattern);
        assert(longer[b] == blocks[b]);
    }
    if has_pattern(block.0, pattern) {
        assert(longer[blocks.len() as int] == block);
    }
}

/// The Hubbard model on a lattice of `n_sites` sites, every site linked to
/// every other: a hopping amplitude `t` and an on-site interaction `u`,
/// both in whole units, so that every matrix element is an integer.
#[derive(Debug, Clone, Copy, PartialEq, Eq, Structural)]
pub struct Hubbard {
    /// Number of lattice sites.
    pub n_sites: u32,
    /// Hopping amplitude.
    pub t: i32,
    /// On-site interaction strength.
    pub u: i32,
}

impl Hubbard {
    /// The labels of the model fit a signed 32-bit integer.
    pub open spec fn wf(&self) -> bool {
        self.n_sites <= MAX_SITES
    }

    /// The diagonal matrix element of the state `label`.
    pub open spec fn interaction(&self, label: i32) -> int {
        self.u * double_occupancy(self.n_sites, label, self.n_sites as int)
    }

    /// Every label linked to one of the first `count` labels of `found` has
    /// its occupation pattern in `states`.
    pub open spec fn closed_under_found(
        &self,
        found: Seq<i32>,
        states: Seq<i32>,
        count: int,
    ) -> bool {
        forall|j: int, k: int|
            0 <= j < count && 0 <= k < linked_labels(self.n_sites, found[j]).len()
                ==> has_pattern(
                states,
                label_abs(#[trigger] linked_labels(self.n_sites, found[j])[k]),
            )
    }

    /// On-site interaction of the state `state_0`: the interaction strength
    /// times the number of sites whose two orbitals are both occupied.
    pub fn interaction_term(&self, state_0: i32) -> (coefficient: i64)
        requires
            self.wf(),
            valid_label(self.n_sites, state_0),
        ensures
            coefficient == self.interaction(state_0),
    {
        let mut coefficient: i64 = 0;
        let mut site: u32 = 0;
        while site < self.n_sites
            invariant
                site <= self.n_sites <= MAX_SITES,
                valid_label(self.n_sites, state_0),
                0 <= double_occupancy(self.n_sites, state_0, site as int) <= site,
                coefficient == self.u * double_occupancy(self.n_sites, state_0, site as int),
            decreases self.n_sites - site,
        {
            let mut ket_state = FockState::new(self.n_sites, state_0);
            let _first = ket_state.number(site);
            let _second = ket_state.number(site + self.n_sites);
            let overlap: i32 = ket_state.scalar(state_0);
            proof {
                let count = double_occupancy(self.n_sites, state_0, site as int);
                assert(overlap == 1 <==> doubly_occupied(self.n_sites, state_0, site as int));
                assert(self.u * (count + overlap) == self.u * count + self.u * overlap
                    && -0x8000_0000 * 16 <= self.u * count <= 0x8000_0000 * 16
                    && -0x8000_0000 <= self.u * overlap <= 0x8000_0000) by (nonlinear_arith)
                    requires
                        0 <= count <= 15,
                        0 <= overlap <= 1,
                        -0x8000_0000 <= self.u < 0x8000_0000,
                ;
            }
            coefficient = coefficient + (self.u as i64) * (overlap as i64);
            site += 1;
        }
        coefficient
    }

    /// Number of occupied orbitals of `state_0` strictly between `lo` and
    /// `hi`.
    fn count_between(&self, state_0: i32, lo: u32, hi: u32) -> (count: u32)
        requires
            self.wf(),
            valid_label(self.n_sites, state_0),
            hi <= 2 * self.n_sites,
        ensures
            count == occupied_between(self.n_sites, state_0, lo as int, hi as int),
            count <= 30,
    {
        let ket = FockState::new(self.n_sites, state_0);
        let mut count: u32 = 0;
        if hi <= lo || hi - lo <= 1 {
            return 0;
        }
        let mut orbital: u32 = lo + 1;
        while orbital < hi
            invariant
                lo < orbital <= hi,
                hi <= 2 * self.n_sites,
                self.n_sites <= MAX_SITES,
                ket == fresh_state(self.n_sites, state_0),
                ket.wf(),
                count == occupied_between(self.n_sites, state_0, lo as int, orbital as int),
                count < orbital,
            decreases hi - orbital,
        {
            if ket.is_occupied(orbital) {
                count += 1;
            }
            orbital += 1;
        }
        count
    }

    /// The label that the hop from site `pair.1` to site `pair.0` produces
    /// in the spin channel whose orbitals start at `offset`, if any.
    fn hop(&self, state_0: i32, pair: (i32, i32), offset: u32) -> (label: Option<i32>)
        requires
            self.wf(),
            valid_label(self.n_sites, state_0),
            0 <= pair.0 < self.n_sites,
            0 <= pair.1 < self.n_sites,
            offset == 0 || offset == self.n_sites,
        ensures
            label == hop_label(self.n_sites, state_0, pair, offset as int),
            match label {
                Some(l) => valid_label(self.n_sites, l),
                None => true,
            },
    {
        let site_i: i32 = pair.0;
        let site_j: i32 = pair.1;
        let bound: i32 = self.n_sites as i32 - 1;
        let mut ket = FockState::new(self.n_sites, state_0);
        let _destroyed = ket.destroy(site_j + offset as i32);
        let _created = ket.create(site_i + offset as i32);
        if ket.is_null {
            return None;
        }
        let mut flipped: bool = false;
        if (site_i == 0 && site_j == bound) || (site_i == bound && site_j == 0) {
            let between: u32 = self.count_between(state_0, offset, offset + self.n_sites - 1);
            flipped = between % 2 == 1;
        }
        proof {
            lemma_hop_label_valid(self.n_sites, state_0, pair, offset as int);
            lemma_basis_size_bounds(self.n_sites);
        }
        if flipped {
            Some(-ket.integer)
        } else {
            Some(ket.integer)
        }
    }

    /// The states that a single hop connects to `state_0`: for every
    /// ordered pair of distinct sites and both spins, the state in which a
    /// fermion has moved from the second site to the first. The labels come
    /// sorted by absolute value, each occupation pattern once.
    pub fn kinetic_term(&self, state_0: i32) -> (linked: Vec<i32>)
        requires
            self.wf(),
            valid_label(self.n_sites, state_0),
        ensures
            linked@ == linked_labels(self.n_sites, state_0),
            strictly_sorted(linked@),
            all_valid(self.n_sites, linked@),
            forall|pattern: u32|
                has_pattern(linked@, pattern) <==> reached_by_hop(
                    self.n_sites,
                    state_0,
                    pattern,
                    site_pair_list(self.n_sites).len() as int,
                ),
    {
        let mut sub_states: Vec<i32> = Vec::new();
        let pairs = site_pairs(self.n_sites);
        proof {
            lemma_site_pair_list(self.n_sites);
        }
        let mut idx: usize = 0;
        while idx < pairs.len()
            invariant
                idx <= pairs.len(),
                self.wf(),
                valid_label(self.n_sites, state_0),
                pairs@ == site_pair_list(self.n_sites),
                forall|k: int|
                    0 <= k < pairs.len() ==> {
                        let pair = #[trigger] pairs@[k];
                        0 <= pair.0 < self.n_sites && 0 <= pair.1 < self.n_sites
                    },
                sub_states@ == linked_upto(self.n_sites, state_0, idx as int),
                strictly_sorted(sub_states@),
                all_valid(self.n_sites, sub_states@),
            decreases pairs.len() - idx,
        {
            let pair = pairs[idx];
            let up = self.hop(state_0, pair, 0);
            self.add_hop(&mut sub_states, up);
            let down = self.hop(state_0, pair, self.n_sites);
            self.add_hop(&mut sub_states, down);
            idx += 1;
        }
        proof {
            assert forall|pattern: u32|
                has_pattern(sub_states@, pattern) <==> reached_by_hop(
                    self.n_sites,
                    state_0,
                    pattern,
                    site_pair_list(self.n_sites).len() as int,
                ) by {
                lemma_linked_patterns(
                    self.n_sites,
                    state_0,
                    pattern,
                    site_pair_list(self.n_sites).len() as int,
                );
            }
        }
        sub_states
    }

    /// The labels that chains of hops connect with `state`, sorted by
    /// absolute value, each occupation pattern once: `state` itself, then
    /// whatever is linked to a label already found, until nothing new turns
    /// up.
    fn connected_labels(&self, state: i32) -> (sub_states: Vec<i32>)
        requires
            self.wf(),
            valid_label(self.n_sites, state),
        ensures
            strictly_sorted(sub_states@),
            all_valid(self.n_sites, sub_states@),
            sub_states@.contains(state),
            all_reached(self.n_sites, label_abs(state), sub_states@),
            found_by_hops(self.n_sites, state, sub_states@),
            self.closed_under_hops(sub_states@, sub_states.len() as int),
    {
        let ghost seed = label_abs(state);
        let mut idx: usize = 0;
        let mut sub_states: Vec<i32> = Vec::new();
        sub_states.push(state);
        // the labels in the order in which they were found
        let mut found: Vec<i32> = Vec::new();
        found.push(state);
        proof {
            assert(sub_states@[0] == state);
            assert(found@[0] == state);
            lemma_reaches_itself(self.n_sites, seed);
        }
        while idx < found.len()
            invariant
                self.wf(),
                seed == label_abs(state),
                idx <= found.len(),
                found.len() == sub_states.len(),
                strictly_sorted(sub_states@),
                all_valid(self.n_sites, sub_states@),
                all_reached(self.n_sites, seed, sub_states@),
                sub_states@.contains(state),
                found_by_hops(self.n_sites, state, sub_states@),
                forall|i: int| 0 <= i < found.len() ==> sub_states@.contains(#[trigger] found@[i]),
                forall|x: i32| sub_states@.contains(x) ==> found@.contains(x),
                self.closed_under_found(found@, sub_states@, idx as int),
            decreases basis_size(self.n_sites) - idx,
        {
            let current_state: i32 = found[idx];
            proof {
                lemma_sorted_len_bound(self.n_sites, sub_states@);
                assert(sub_states@.contains(found@[idx as int]));
                let at = choose|at: int| 0 <= at < sub_states.len() && sub_states@[at] == current_state;
                assert(valid_label(self.n_sites, sub_states@[at]));
                assert(reaches(self.n_sites, seed, label_abs(sub_states@[at])));
            }
            let new_states: Vec<i32> = self.kinetic_term(current_state);
            let mut k: usize = 0;
            while k < new_states.len()
                invariant
                    self.wf(),
                    k <= new_states.len(),
                    idx < found.len(),
                    found@[idx as int] == current_state,
                    valid_label(self.n_sites, current_state),
                    reaches(self.n_sites, seed, label_abs(current_state)),
                    new_states@ == linked_labels(self.n_sites, current_state),
                    all_valid(self.n_sites, new_states@),
                    found.len() == sub_states.len(),
                    strictly_sorted(sub_states@),
                    all_valid(self.n_sites, sub_states@),
                    all_reached(self.n_sites, seed, sub_states@),
                    sub_states@.contains(state),
                    found_by_hops(self.n_sites, state, sub_states@),
                    forall|i: int|
                        0 <= i < found.len() ==> sub_states@.contains(#[trigger] found@[i]),
                    forall|x: i32| sub_states@.contains(x) ==> found@.contains(x),
                    self.closed_under_found(found@, sub_states@, idx as int),
                    forall|i: int|
                        0 <= i < k ==> has_pattern(sub_states@, label_abs(#[trigger] new_states@[i])),
                decreases new_states.len() - k,
            {
                let label = new_states[k];
                proof {
                    assert(valid_label(self.n_sites, label));
                    lemma_sorted_len_bound(self.n_sites, sub_states@);
                    lemma_basis_size_bounds(self.n_sites);
                }
                let pattern = abs_label(label);
                if !contains_pattern(&sub_states, pattern) {
                    let ghost before = sub_states@;
                    let ghost order = found@;
                    proof {
                        self.lemma_linked_label_is_linked(current_state, k as int);
                        lemma_reaches_one_more(
                            self.n_sites,
                            seed,
                            label_abs(current_state),
                            pattern,
                        );
                        lemma_with_label(before, label);
                        lemma_with_label_valid(self.n_sites, before, label);
                        lemma_with_label_reached(self.n_sites, seed, before, label);
                    }
                    insert_label(&mut sub_states, label);
                    found.push(label);
                    proof {
                        assert forall|p: u32| has_pattern(before, p) implies has_pattern(
                            sub_states@,
                            p,
                        ) by {
                            lemma_with_label_patterns(before, label, p);
                        }
                        lemma_with_label_patterns(before, label, pattern);
                        assert forall|y: i32| #[trigger]
                            sub_states@.contains(y) implies y == state || found_from(
                            self.n_sites,
                            sub_states@,
                            y,
                        ) by {
                            if y == label {
                                assert(new_states@[k as int] == label);
                                assert(before.contains(order[idx as int]));
                                assert(linked_labels(self.n_sites, current_state).contains(y));
                            } else if y != state {
                                assert(before.contains(y));
                                let from = choose|from: i32|
                                    before.contains(from) && #[trigger] linked_labels(
                                        self.n_sites,
                                        from,
                                    ).contains(y);
                                assert(sub_states@.contains(from));
                            }
                        }
                        assert forall|i: int| 0 <= i < found.len() implies sub_states@.contains(
                            #[trigger] found@[i],
                        ) by {
                            if i < order.len() {
                                assert(found@[i] == order[i]);
                                assert(before.contains(order[i]));
                            }
                        }
                        assert forall|x: i32| sub_states@.contains(x) implies found@.contains(
                            x,
                        ) by {
                            if x == label {
                                assert(found@[order.len() as int] == label);
                            } else {
                                assert(order.contains(x));
                                let i = choose|i: int| 0 <= i < order.len() && order[i] == x;
                                assert(found@[i] == x);
                            }
                        }
                        assert(self.closed_under_found(found@, sub_states@, idx as int)) by {
                            assert forall|j: int, m: int|
                                0 <= j < idx && 0 <= m < linked_labels(
                                    self.n_sites,
                                    found@[j],
                                ).len() implies has_pattern(
                                sub_states@,
                                label_abs(#[trigger] linked_labels(self.n_sites, found@[j])[m]),
                            ) by {
                                assert(found@[j] == order[j]);
                                assert(has_pattern(
                                    before,
                                    label_abs(linked_labels(self.n_sites, order[j])[m]),
                                ));
                            }
                        }
                    }
                }
                k += 1;
            }
            idx += 1;
        }
        proof {
            assert forall|j: int, m: int|
                0 <= j < sub_states.len() && 0 <= m < linked_labels(
                    self.n_sites,
                    sub_states@[j],
                ).len() implies has_pattern(
                sub_states@,
                label_abs(#[trigger] linked_labels(self.n_sites, sub_states@[j])[m]),
            ) by {
                assert(sub_states@.contains(sub_states@[j]));
                let i = choose|i: int| 0 <= i < found.len() && found@[i] == sub_states@[j];
                assert(has_pattern(
                    sub_states@,
                    label_abs(linked_labels(self.n_sites, found@[i])[m]),
                ));
            }
        }
        sub_states
    }

    /// The packed upper triangle of the Hamiltonian on the labels of
    /// `states`, column after column.
    fn pack_block(&self, states: &Vec<i32>) -> (elems: Vec<i64>)
        requires
            self.wf(),
            strictly_sorted(states@),
            all_valid(self.n_sites, states@),
        ensures
            self.is_packed_block(states@, elems@, states.len() as int),
    {
        let mut elems: Vec<i64> = Vec::new();
        let mut j: usize = 0;
        proof {
            lemma_triangular_zero();
            lemma_basis_size_bounds(self.n_sites);
        }
        while j < states.len()
            invariant
                self.wf(),
                j <= states.len(),
                strictly_sorted(states@),
                all_valid(self.n_sites, states@),
                basis_size(self.n_sites) <= 0x4000_0000,
                self.is_packed_block(states@, elems@, j as int),
            decreases states.len() - j,
        {
            let current: i32 = states[j];
            assert(valid_label(self.n_sites, current));
            let linked: Vec<i32> = self.kinetic_term(current);
            let ghost start = elems@;
            proof {
                lemma_sorted_len_bound(self.n_sites, linked@);
                lemma_triangular_step(j as nat);
            }
            let mut i: usize = 0;
            while i < j
                invariant
                    i <= j < states.len(),
                    strictly_sorted(states@),
                    all_valid(self.n_sites, states@),
                    basis_size(self.n_sites) <= 0x4000_0000,
                    current == states@[j as int],
                    linked@ == linked_labels(self.n_sites, current),
                    all_bounded(linked@),
                    start.len() == triangular(j as nat),
                    elems@.len() == start.len() + i,
                    elems@.take(start.len() as int) == start,
                    forall|a: int|
                        0 <= a < i ==> #[trigger] elems@[start.len() + a] == self.matrix_entry(
                            states@[a],
                            current,
                        ),
                decreases j - i,
            {
                let label: i32 = states[i];
                proof {
                    assert(valid_label(self.n_sites, label));
                    assert(label_abs(states@[i as int]) < label_abs(states@[j as int]));
                }
                let ghost shorter = elems@;
                if contains_pattern(&linked, abs_label(label)) {
                    elems.push(self.t as i64);
                } else {
                    elems.push(0);
                }
                proof {
                    assert(elems@.take(start.len() as int) =~= shorter.take(start.len() as int));
                    assert forall|a: int| 0 <= a < i + 1 implies #[trigger] elems@[start.len() + a]
                        == self.matrix_entry(states@[a], current) by {
                        if a < i {
                            assert(elems@[start.len() + a] == shorter[start.len() + a]);
                        }
                    }
                }
                i += 1;
            }
            let diagonal = self.interaction_term(current);
            let ghost shorter = elems@;
            elems.push(diagonal);
            proof {
                assert(elems@.take(start.len() as int) =~= shorter.take(start.len() as int));
                assert forall|a: nat, b: nat| a <= b < j + 1 implies elems@[#[trigger] packed_index(
                    a,
                    b,
                ) as int] == self.matrix_entry(states@[a as int], states@[b as int]) by {
                    if b < j {
                        lemma_triangular_step(b);
                        lemma_triangular_monotonic(b + 1, j as nat);
                        assert(elems@[packed_index(a, b) as int] == elems@.take(
                            start.len() as int,
                        )[packed_index(a, b) as int]);
                    } else if a < j {
                        assert(elems@[start.len() + a as int] == shorter[start.len() + a as int]);
                    }
                }
            }
            j += 1;
        }
        elems
    }

    /// The block of the Hamiltonian that holds `state`: the states that
    /// chains of hops connect with `state`, all of them, sorted by absolute
    /// value, and the packed upper triangle of the Hamiltonian on those
    /// states, column after column. Every label but `state` carries the
    /// sign with which a hop from a label of the block produces it.
    pub fn find_sub_block(&self, state: i32) -> (block: (Vec<i32>, Vec<i64>))
        requires
            self.wf(),
            valid_label(self.n_sites, state),
        ensures
            strictly_sorted(block.0@),
            all_valid(self.n_sites, block.0@),
            block.0@.contains(state),
            all_reached(self.n_sites, label_abs(state), block.0@),
            holds_what_it_reaches(self.n_sites, block.0@),
            self.closed_under_hops(block.0@, block.0.len() as int),
            found_by_hops(self.n_sites, state, block.0@),
            1 <= block.0.len() <= basis_size(self.n_sites),
            self.is_packed_block(block.0@, block.1@, block.0.len() as int),
    {
        let sub_states = self.connected_labels(state);
        let elems = self.pack_block(&sub_states);
        proof {
            self.lemma_closed_holds_all(sub_states@);
            lemma_sorted_len_bound(self.n_sites, sub_states@);
        }
        (sub_states, elems)
    }

    /// Marks the occupation patterns of the labels of `labels` as visited.
    fn mark_visited(&self, visited: &mut Vec<bool>, labels: &Vec<i32>)
        requires
            self.wf(),
            all_valid(self.n_sites, labels@),
            old(visited).len() == basis_size(self.n_sites),
        ensures
            final(visited).len() == old(visited).len(),
            forall|p: u32|
                p < basis_size(self.n_sites) ==> (#[trigger] final(visited)@[p as int] <==> old(
                    visited,
                )@[p as int] || has_pattern(labels@, p)),
    {
        proof {
            lemma_basis_size_bounds(self.n_sites);
        }
        let mut k: usize = 0;
        while k < labels.len()
            invariant
                k <= labels.len(),
                all_valid(self.n_sites, labels@),
                visited.len() == basis_size(self.n_sites),
                basis_size(self.n_sites) <= 0x4000_0000,
                forall|p: u32|
                    p < basis_size(self.n_sites) ==> (#[trigger] visited@[p as int] <==> old(
                        visited,
                    )@[p as int] || has_pattern(labels@.take(k as int), p)),
            decreases labels.len() - k,
        {
            let label = labels[k];
            assert(valid_label(self.n_sites, label));
            let pattern = abs_label(label);
            visited.set(pattern as usize, true);
            proof {
                let before = labels@.take(k as int);
                let after = labels@.take(k + 1);
                assert forall|p: u32| has_pattern(after, p) <==> has_pattern(before, p) || p
                    == pattern by {
                    if has_pattern(after, p) {
                        let i = choose|i: int| 0 <= i < after.len() && label_abs(after[i]) == p;
                        if i < k {
                            assert(before[i] == after[i]);
                        }
                    }
                    if has_pattern(before, p) {
                        let i = choose|i: int| 0 <= i < before.len() && label_abs(before[i]) == p;
                        assert(before[i] == after[i]);
                    }
                    if p == pattern {
                        assert(after[k as int] == label);
                    }
                }
            }
            k += 1;
        }
        assert(labels@.take(k as int) =~= labels@);
    }

    /// Sweeps the whole basis in increasing order and returns the blocks of
    /// the Hamiltonian: every state that no earlier block holds starts a
    /// block of its own. The blocks are a partition of the basis: every
    /// basis state lies in exactly one of them. The labels of a block are
    /// the states that chains of hops connect with one another, its
    /// coefficients the packed upper triangle of the Hamiltonian on them.
    /// The blocks come in the order of their smallest states.
    pub fn find_blocks(&self) -> (blocks: Vec<(Vec<i32>, Vec<i64>)>)
        requires
            self.wf(),
        ensures
            forall|p: u32|
                p < basis_size(self.n_sites) ==> covered(block_views(blocks@), p),
            pairwise_disjoint(block_views(blocks@)),
            forall|b: int|
                0 <= b < blocks.len() ==> {
                    let block = #[trigger] blocks@[b];
                    &&& strictly_sorted(block.0@)
                    &&& all_valid(self.n_sites, block.0@)
                    &&& is_component(self.n_sites, block.0@)
                    &&& self.closed_under_hops(block.0@, block.0.len() as int)
                    &&& block.0@[0] >= 0
                    &&& found_by_hops(self.n_sites, block.0@[0], block.0@)
                    &&& self.is_packed_block(block.0@, block.1@, block.0.len() as int)
                },
            forall|a: int, b: int|
                0 <= a < b < blocks.len() ==> (#[trigger] blocks@[a]).0@[0] < (
                #[trigger] blocks@[b]).0@[0],
    {
        proof {
            lemma_basis_size_bounds(self.n_sites);
        }
        let size: u32 = 1u32 << (2 * self.n_sites);
        let mut visited: Vec<bool> = vec![false; size as usize];
        let mut blocks: Vec<(Vec<i32>, Vec<i64>)> = Vec::new();
        let mut state_i: u32 = 0;
        while state_i < size
            invariant
                self.wf(),
                state_i <= size,
                size == basis_size(self.n_sites),
                size <= 0x4000_0000,
                visited.len() == size,
                forall|p: u32|
                    p < size ==> (#[trigger] visited@[p as int] <==> covered(
                        block_views(blocks@),
                        p,
                    )),
                forall|p: u32| p < state_i ==> covered(block_views(blocks@), p),
                pairwise_disjoint(block_views(blocks@)),
                forall|b: int|
                    0 <= b < blocks.len() ==> {
                        let block = #[trigger] blocks@[b];
                        &&& strictly_sorted(block.0@)
                        &&& all_valid(self.n_sites, block.0@)
                        &&& is_component(self.n_sites, block.0@)
                        &&& self.closed_under_hops(block.0@, block.0.len() as int)
                        &&& 0 <= block.0@[0] < state_i
                        &&& found_by_hops(self.n_sites, block.0@[0], block.0@)
                        &&& self.is_packed_block(block.0@, block.1@, block.0.len() as int)
                    },
                forall|a: int, b: int|
                    0 <= a < b < blocks.len() ==> (#[trigger] blocks@[a]).0@[0] < (
                    #[trigger] blocks@[b]).0@[0],
            decreases size - state_i,
        {
            if !visited[state_i as usize] {
                let (sub_block, matrix_elems) = self.find_sub_block(state_i as i32);
                let ghost found = block_views(blocks@);
                let ghost view = (sub_block@, matrix_elems@);
                proof {
                    self.lemma_new_block(found, sub_block@, state_i);
                }
                self.mark_visited(&mut visited, &sub_block);
                blocks.push((sub_block, matrix_elems));
                proof {
                    assert(block_views(blocks@) =~= found.push(view));
                    assert forall|p: u32| p < size implies (#[trigger] visited@[p as int]
                        <==> covered(block_views(blocks@), p)) by {
                        lemma_covered_push(found, view, p);
                    }
                    assert forall|p: u32| p < state_i + 1 implies covered(
                        block_views(blocks@),
                        p,
                    ) by {
                        lemma_covered_push(found, view, p);
                    }
                    assert forall|a: int, b: int, p: u32|
                        0 <= a < b < found.push(view).len() && has_pattern(
                            found.push(view)[a].0,
                            p,
                        ) implies !has_pattern(found.push(view)[b].0, p) by {
                        assert(found.push(view)[a] == found[a]);
                        if b < found.len() {
                            assert(found.push(view)[b] == found[b]);
                        }
                    }
                }
            }
            state_i += 1;
        }
        blocks
    }

    /// The block of a state that no earlier block covers, where the blocks
    /// before cover every smaller state and hold what they reach, starts
    /// with that state and shares no state with the blocks before.
    proof fn lemma_new_block(
        &self,
        found: Seq<(Seq<i32>, Seq<i64>)>,
        block: Seq<i32>,
        seed: u32,
    )
        requires
            self.wf(),
            seed < basis_size(self.n_sites),
            forall|p: u32| p < seed ==> covered(found, p),
            !covered(found, seed),
            forall|b: int|
                0 <= b < found.len() ==> holds_what_it_reaches(
                    self.n_sites,
                    (#[trigger] found[b]).0,
                ),
            strictly_sorted(block),
            block.contains(seed as i32),
            all_reached(self.n_sites, seed, block),
            holds_what_it_reaches(self.n_sites, block),
        ensures
            block[0] == seed as i32,
            has_pattern(block, seed),
            is_component(self.n_sites, block),
            forall|b: int, p: u32|
                0 <= b < found.len() && has_pattern(found[b].0, p) ==> !has_pattern(block, p),
    {
        let n = self.n_sites;
        lemma_basis_size_bounds(n);
        let at = choose|at: int| 0 <= at < block.len() && block[at] == seed as i32;
        assert(label_abs(block[at]) == seed);
        assert forall|b: int, p: u32|
            0 <= b < found.len() && has_pattern(found[b].0, p) implies !has_pattern(block, p) by {
            if has_pattern(block, p) {
                let i = choose|i: int| 0 <= i < block.len() && label_abs(block[i]) == p;
                assert(reaches(n, seed, label_abs(block[i])));
                lemma_reaches_symmetric(n, seed, p);
                assert(holds_what_it_reaches(n, found[b].0));
                assert(has_pattern(found[b].0, seed));
            }
        }
        if at > 0 {
            let low = label_abs(block[0]);
            assert(low < label_abs(block[at]));
            assert(covered(found, low));
            let b = choose|b: int| 0 <= b < found.len() && has_pattern(found[b].0, low);
            assert(has_pattern(block, low));
        }
    }

    /// Lets the label of a possible hop join a sorted list.
    fn add_hop(&self, list: &mut Vec<i32>, hop: Option<i32>)
        requires
            self.wf(),
            strictly_sorted(old(list)@),
            all_valid(self.n_sites, old(list)@),
            match hop {
                Some(l) => valid_label(self.n_sites, l),
                None => true,
            },
        ensures
            final(list)@ == with_hop(old(list)@, hop),
            strictly_sorted(final(list)@),
            all_valid(self.n_sites, final(list)@),
    {
        if let Some(label) = hop {
            proof {
                lemma_sorted_len_bound(self.n_sites, list@);
                lemma_basis_size_bounds(self.n_sites);
                lemma_with_label_valid(self.n_sites, list@, label);
            }
            insert_label(list, label);
        }
    }
}

} // verus!
