//! Hopping as a relation between occupation patterns: it does not depend on
//! the sign of a label, it is symmetric, and the patterns that chains of
//! hops connect stay inside every list that is closed under hopping.

use vstd::prelude::*;
use crate::fock_space::{
    basis_size, fresh_state, hop_label, hop_pattern, label_abs, lemma_basis_size_bounds,
    lemma_hop_label_valid, lemma_phase_keeps_pattern, lemma_toggle_in_basis, orbital_mask,
    reached_by_hop, valid_label, MAX_SITES,
};
use crate::fock_space::{lemma_linked_patterns, linked_labels, Hubbard};
use crate::label_list::{all_valid, has_pattern, lemma_with_label, strictly_sorted, with_label};
use crate::site_pairs::{lemma_site_pair_list, site_pair_list};

verus! {

/// Whether a fermion of the occupation pattern `pattern` can hop from the
/// orbital `from` to the orbital `to`.
pub open spec fn can_hop(n_sites: u32, pattern: u32, from: int, to: int) -> bool {
    pattern & orbital_mask(n_sites, from) != 0 && (pattern ^ orbital_mask(n_sites, from))
        & orbital_mask(n_sites, to) == 0
}

/// The occupation pattern after the hop from `from` to `to`.
pub open spec fn after_hop(n_sites: u32, pattern: u32, from: int, to: int) -> u32 {
    (pattern ^ orbital_mask(n_sites, from)) ^ orbital_mask(n_sites, to)
}

/// A hop produces a label exactly when the fermion can hop, and the label
/// has the pattern after the hop, whatever the sign of the label before.
pub proof fn lemma_hop_label_pattern(n_sites: u32, label: i32, pair: (i32, i32), offset: int)
    requires
        valid_label(n_sites, label),
        0 <= pair.0 < n_sites,
        0 <= pair.1 < n_sites,
        offset == 0 || offset == n_sites,
    ensures
        match hop_label(n_sites, label, pair, offset) {
            Some(l) => can_hop(n_sites, label_abs(label), pair.1 + offset, pair.0 + offset)
                && label_abs(l) == after_hop(
                n_sites,
                label_abs(label),
                pair.1 + offset,
                pair.0 + offset,
            ),
            None => !can_hop(n_sites, label_abs(label), pair.1 + offset, pair.0 + offset),
        },
{
    let from = pair.1 + offset;
    let to = pair.0 + offset;
    let start = fresh_state(n_sites, label);
    let pattern = label_abs(label);
    let lifted = pattern ^ orbital_mask(n_sites, from);
    lemma_basis_size_bounds(n_sites);
    lemma_toggle_in_basis(n_sites, pattern, from);
    lemma_phase_keeps_pattern(start.sign, pattern);
    lemma_phase_keeps_pattern(start.sign, lifted);
    if start.occupied(from) {
        let middle = start.destroyed(from);
        assert(label_abs(middle.integer) == lifted);
        lemma_toggle_in_basis(n_sites, lifted, to);
        lemma_phase_keeps_pattern(start.sign, lifted ^ orbital_mask(n_sites, to));
    }
}

/// A hop can be taken back: the fermion can hop from `to` to `from` in the
/// pattern after the hop, and that gives the pattern before the hop.
pub proof fn lemma_hop_back(n_sites: u32, pattern: u32, from: int, to: int)
    requires
        n_sites <= MAX_SITES,
        0 <= from < 2 * n_sites,
        0 <= to < 2 * n_sites,
        from != to,
        can_hop(n_sites, pattern, from, to),
    ensures
        can_hop(n_sites, after_hop(n_sites, pattern, from, to), to, from),
        after_hop(n_sites, after_hop(n_sites, pattern, from, to), to, from) == pattern,
{
    let s: u32 = (2 * n_sites - 1 - from) as u32;
    let t: u32 = (2 * n_sites - 1 - to) as u32;
    assert({
        let b = (pattern ^ (1u32 << s)) ^ (1u32 << t);
        &&& b & (1u32 << t) != 0
        &&& (b ^ (1u32 << t)) & (1u32 << s) == 0
        &&& (b ^ (1u32 << t)) ^ (1u32 << s) == pattern
    }) by (bit_vector)
        requires
            s < 32,
            t < 32,
            s != t,
            pattern & (1u32 << s) != 0,
            (pattern ^ (1u32 << s)) & (1u32 << t) == 0,
    ;
}

/// The place of the pair `(first, second)` in the list of pairs of sites.
pub proof fn lemma_pair_index(n_sites: u32, first: int, second: int) -> (k: int)
    requires
        n_sites <= MAX_SITES,
        0 <= first < n_sites,
        0 <= second < n_sites,
        first != second,
    ensures
        0 <= k < site_pair_list(n_sites).len(),
        site_pair_list(n_sites)[k] == (first as i32, second as i32),
{
    let d = n_sites - 1;
    let rest = if second < first {
        second
    } else {
        second - 1
    };
    let k = first * d + rest;
    lemma_site_pair_list(n_sites);
    assert(0 <= k < n_sites * d && k / d == first && k % d == rest) by (nonlinear_arith)
        requires
            k == first * d + rest,
            0 <= rest < d,
            0 <= first < n_sites,
            d == n_sites - 1,
    ;
    k
}

/// The patterns that one hop reaches do not depend on the sign of the label.
pub proof fn lemma_reached_whatever_sign(n_sites: u32, label: i32, other: i32, pattern: u32)
    requires
        valid_label(n_sites, label),
        label_abs(other) == label_abs(label),
        reached_by_hop(n_sites, label, pattern, site_pair_list(n_sites).len() as int),
    ensures
        reached_by_hop(n_sites, other, pattern, site_pair_list(n_sites).len() as int),
{
    let count = site_pair_list(n_sites).len() as int;
    let (k, down) = choose|k: int, down: bool|
        0 <= k < count && #[trigger] hop_pattern(n_sites, label, k, down) == Some(pattern);
    lemma_site_pair_list(n_sites);
    let pair = site_pair_list(n_sites)[k];
    let offset = if down {
        n_sites as int
    } else {
        0
    };
    lemma_hop_label_pattern(n_sites, label, pair, offset);
    lemma_hop_label_pattern(n_sites, other, pair, offset);
    assert(hop_pattern(n_sites, other, k, down) == Some(pattern));
}

/// A pattern that one hop reaches lies in the basis.
pub proof fn lemma_reached_in_basis(n_sites: u32, label: i32, pattern: u32)
    requires
        valid_label(n_sites, label),
        reached_by_hop(n_sites, label, pattern, site_pair_list(n_sites).len() as int),
    ensures
        pattern < basis_size(n_sites),
{
    let count = site_pair_list(n_sites).len() as int;
    let (k, down) = choose|k: int, down: bool|
        0 <= k < count && #[trigger] hop_pattern(n_sites, label, k, down) == Some(pattern);
    lemma_site_pair_list(n_sites);
    let offset = if down {
        n_sites as int
    } else {
        0
    };
    lemma_hop_label_valid(n_sites, label, site_pair_list(n_sites)[k], offset);
}

/// Hopping is symmetric: from a pattern that one hop reaches, one hop
/// leads back.
pub proof fn lemma_reached_back(n_sites: u32, label: i32, pattern: u32, back: i32)
    requires
        valid_label(n_sites, label),
        label_abs(back) == pattern,
        reached_by_hop(n_sites, label, pattern, site_pair_list(n_sites).len() as int),
    ensures
        valid_label(n_sites, back),
        reached_by_hop(n_sites, back, label_abs(label), site_pair_list(n_sites).len() as int),
{
    let count = site_pair_list(n_sites).len() as int;
    let (k, down) = choose|k: int, down: bool|
        0 <= k < count && #[trigger] hop_pattern(n_sites, label, k, down) == Some(pattern);
    lemma_site_pair_list(n_sites);
    let pair = site_pair_list(n_sites)[k];
    let offset = if down {
        n_sites as int
    } else {
        0
    };
    lemma_hop_label_pattern(n_sites, label, pair, offset);
    lemma_hop_label_valid(n_sites, label, pair, offset);
    lemma_hop_back(n_sites, label_abs(label), pair.1 + offset, pair.0 + offset);
    let reversed = lemma_pair_index(n_sites, pair.1 as int, pair.0 as int);
    lemma_hop_label_pattern(n_sites, back, (pair.1, pair.0), offset);
    assert(hop_pattern(n_sites, back, reversed, down) == Some(label_abs(label)));
}

/// Whether one hop takes the occupation pattern `from` to the pattern `to`.
pub open spec fn linked(n_sites: u32, from: u32, to: u32) -> bool {
    from < basis_size(n_sites) && reached_by_hop(
        n_sites,
        from as i32,
        to,
        site_pair_list(n_sites).len() as int,
    )
}

/// Whether each pattern of the list is one hop from the pattern before it.
pub open spec fn is_chain(n_sites: u32, chain: Seq<u32>) -> bool {
    chain.len() > 0 && forall|i: int|
        0 <= i < chain.len() - 1 ==> linked(n_sites, #[trigger] chain[i], chain[i + 1])
}

/// Whether some chain of hops takes the pattern `from` to the pattern `to`.
pub open spec fn reaches(n_sites: u32, from: u32, to: u32) -> bool {
    exists|chain: Seq<u32>| #[trigger]
        is_chain(n_sites, chain) && chain.first() == from && chain.last() == to
}

/// Every label of the list has a pattern that chains of hops reach from
/// `from`.
pub open spec fn all_reached(n_sites: u32, from: u32, s: Seq<i32>) -> bool {
    forall|i: int| 0 <= i < s.len() ==> reaches(n_sites, from, label_abs(#[trigger] s[i]))
}

/// Every pattern that chains of hops reach from a pattern of the list is a
/// pattern of the list.
pub open spec fn holds_what_it_reaches(n_sites: u32, s: Seq<i32>) -> bool {
    forall|from: u32, to: u32|
        has_pattern(s, from) && #[trigger] reaches(n_sites, from, to) ==> has_pattern(s, to)
}

/// The patterns of the list are those that chains of hops connect with the
/// pattern of its first label, all of them.
pub open spec fn is_component(n_sites: u32, s: Seq<i32>) -> bool {
    &&& s.len() > 0
    &&& all_reached(n_sites, label_abs(s[0]), s)
    &&& holds_what_it_reaches(n_sites, s)
}

/// A pattern of the basis, read as a label, is that pattern again.
pub proof fn lemma_pattern_as_label(n_sites: u32, pattern: u32)
    requires
        n_sites <= MAX_SITES,
        pattern < basis_size(n_sites),
    ensures
        valid_label(n_sites, pattern as i32),
        label_abs(pattern as i32) == pattern,
{
    lemma_basis_size_bounds(n_sites);
}

/// One hop between patterns can be taken back.
pub proof fn lemma_linked_symmetric(n_sites: u32, from: u32, to: u32)
    requires
        n_sites <= MAX_SITES,
        linked(n_sites, from, to),
    ensures
        linked(n_sites, to, from),
{
    lemma_pattern_as_label(n_sites, from);
    lemma_reached_in_basis(n_sites, from as i32, to);
    lemma_pattern_as_label(n_sites, to);
    lemma_reached_back(n_sites, from as i32, to, to as i32);
}

/// Every pattern reaches itself.
pub proof fn lemma_reaches_itself(n_sites: u32, pattern: u32)
    ensures
        reaches(n_sites, pattern, pattern),
{
    let chain = seq![pattern];
    assert(is_chain(n_sites, chain) && chain.first() == pattern && chain.last() == pattern);
}

/// One more hop at the end of a chain of hops.
pub proof fn lemma_reaches_one_more(n_sites: u32, from: u32, middle: u32, to: u32)
    requires
        reaches(n_sites, from, middle),
        linked(n_sites, middle, to),
    ensures
        reaches(n_sites, from, to),
{
    let chain = choose|chain: Seq<u32>| #[trigger]
        is_chain(n_sites, chain) && chain.first() == from && chain.last() == middle;
    let longer = chain.push(to);
    assert forall|i: int| 0 <= i < longer.len() - 1 implies linked(
        n_sites,
        #[trigger] longer[i],
        longer[i + 1],
    ) by {
        if i < chain.len() - 1 {
            assert(linked(n_sites, chain[i], chain[i + 1]));
        }
    }
    assert(is_chain(n_sites, longer) && longer.first() == from && longer.last() == to);
}

/// A chain of hops can be walked back.
pub proof fn lemma_reaches_symmetric(n_sites: u32, from: u32, to: u32)
    requires
        n_sites <= MAX_SITES,
        reaches(n_sites, from, to),
    ensures
        reaches(n_sites, to, from),
{
    let chain = choose|chain: Seq<u32>| #[trigger]
        is_chain(n_sites, chain) && chain.first() == from && chain.last() == to;
    let back = Seq::new(chain.len(), |i: int| chain[chain.len() - 1 - i]);
    assert forall|i: int| 0 <= i < back.len() - 1 implies linked(
        n_sites,
        #[trigger] back[i],
        back[i + 1],
    ) by {
        let k = chain.len() - 2 - i;
        assert(linked(n_sites, chain[k], chain[k + 1]));
        lemma_linked_symmetric(n_sites, chain[k], chain[k + 1]);
    }
    assert(is_chain(n_sites, back) && back.first() == to && back.last() == from);
}

/// A list whose patterns chains of hops reach from `from` stays such a list
/// when a label with such a pattern joins it.
pub proof fn lemma_with_label_reached(n_sites: u32, from: u32, s: Seq<i32>, label: i32)
    requires
        strictly_sorted(s),
        all_reached(n_sites, from, s),
        reaches(n_sites, from, label_abs(label)),
    ensures
        all_reached(n_sites, from, with_label(s, label)),
{
    let r = with_label(s, label);
    lemma_with_label(s, label);
    assert forall|i: int| 0 <= i < r.len() implies reaches(
        n_sites,
        from,
        label_abs(#[trigger] r[i]),
    ) by {
        assert(r.contains(r[i]));
        if s.contains(r[i]) {
            let k = choose|k: int| 0 <= k < s.len() && s[k] == r[i];
            assert(reaches(n_sites, from, label_abs(s[k])));
        }
    }
}

impl Hubbard {
    /// A list of labels that is closed under hopping holds every pattern
    /// of a chain of hops that starts at one of its patterns.
    pub proof fn lemma_closed_holds_chain(&self, states: Seq<i32>, chain: Seq<u32>, upto: int)
        requires
            self.wf(),
            all_valid(self.n_sites, states),
            self.closed_under_hops(states, states.len() as int),
            is_chain(self.n_sites, chain),
            has_pattern(states, chain.first()),
            0 <= upto < chain.len(),
        ensures
            has_pattern(states, chain[upto]),
        decreases upto,
    {
        if upto > 0 {
            let n = self.n_sites;
            self.lemma_closed_holds_chain(states, chain, upto - 1);
            let middle = chain[upto - 1];
            let to = chain[upto];
            assert(linked(n, middle, to));
            let j = choose|j: int| 0 <= j < states.len() && label_abs(states[j]) == middle;
            assert(valid_label(n, states[j]));
            lemma_pattern_as_label(n, middle);
            lemma_reached_whatever_sign(n, middle as i32, states[j], to);
            lemma_linked_patterns(n, states[j], to, site_pair_list(n).len() as int);
            let found = linked_labels(n, states[j]);
            let k = choose|k: int| 0 <= k < found.len() && label_abs(found[k]) == to;
            assert(has_pattern(states, label_abs(linked_labels(n, states[j])[k])));
        }
    }

    /// A list of labels that is closed under hopping holds every pattern
    /// that chains of hops reach from one of its patterns.
    pub proof fn lemma_closed_holds_reached(&self, states: Seq<i32>, from: u32, to: u32)
        requires
            self.wf(),
            all_valid(self.n_sites, states),
            self.closed_under_hops(states, states.len() as int),
            has_pattern(states, from),
            reaches(self.n_sites, from, to),
        ensures
            has_pattern(states, to),
    {
        let chain = choose|chain: Seq<u32>| #[trigger]
            is_chain(self.n_sites, chain) && chain.first() == from && chain.last() == to;
        self.lemma_closed_holds_chain(states, chain, chain.len() - 1);
    }

    /// A list of labels that is closed under hopping holds every pattern
    /// that chains of hops reach from its patterns.
    pub proof fn lemma_closed_holds_all(&self, states: Seq<i32>)
        requires
            self.wf(),
            all_valid(self.n_sites, states),
            self.closed_under_hops(states, states.len() as int),
        ensures
            holds_what_it_reaches(self.n_sites, states),
    {
        assert forall|from: u32, to: u32|
            has_pattern(states, from) && #[trigger] reaches(
                self.n_sites,
                from,
                to,
            ) implies has_pattern(states, to) by {
            self.lemma_closed_holds_reached(states, from, to);
        }
    }

    /// A block is the smallest list closed under hopping that holds its
    /// seed: every pattern that chains of hops reach from `from` lies in
    /// every list that is closed under hopping and holds `from`.
    pub proof fn lemma_block_is_smallest(&self, from: u32, block: Seq<i32>, other: Seq<i32>)
        requires
            self.wf(),
            all_reached(self.n_sites, from, block),
            all_valid(self.n_sites, other),
            self.closed_under_hops(other, other.len() as int),
            has_pattern(other, from),
        ensures
            forall|pattern: u32| has_pattern(block, pattern) ==> has_pattern(other, pattern),
    {
        assert forall|pattern: u32| has_pattern(block, pattern) implies has_pattern(
            other,
            pattern,
        ) by {
            let i = choose|i: int| 0 <= i < block.len() && label_abs(block[i]) == pattern;
            assert(reaches(self.n_sites, from, label_abs(block[i])));
            self.lemma_closed_holds_reached(other, from, pattern);
        }
    }

    /// The Hamiltonian is symmetric: between two states of different
    /// occupation patterns the matrix element is the same in both
    /// directions.
    pub proof fn lemma_matrix_entry_symmetric(&self, row: i32, col: i32)
        requires
            self.wf(),
            valid_label(self.n_sites, row),
            valid_label(self.n_sites, col),
            label_abs(row) != label_abs(col),
        ensures
            self.matrix_entry(row, col) == self.matrix_entry(col, row),
    {
        let n = self.n_sites;
        let count = site_pair_list(n).len() as int;
        lemma_linked_patterns(n, col, label_abs(row), count);
        lemma_linked_patterns(n, row, label_abs(col), count);
        if reached_by_hop(n, col, label_abs(row), count) {
            lemma_reached_back(n, col, label_abs(row), row);
        }
        if reached_by_hop(n, row, label_abs(col), count) {
            lemma_reached_back(n, row, label_abs(col), col);
        }
    }

    /// A label linked to a label of the basis has a pattern that one hop
    /// reaches from the pattern of that label.
    pub proof fn lemma_linked_label_is_linked(&self, current: i32, k: int)
        requires
            self.wf(),
            valid_label(self.n_sites, current),
            0 <= k < linked_labels(self.n_sites, current).len(),
        ensures
            linked(
                self.n_sites,
                label_abs(current),
                label_abs(linked_labels(self.n_sites, current)[k]),
            ),
    {
        let n = self.n_sites;
        let found = linked_labels(n, current);
        let to = label_abs(found[k]);
        assert(has_pattern(found, to));
        lemma_linked_patterns(n, current, to, site_pair_list(n).len() as int);
        lemma_pattern_as_label(n, label_abs(current));
        lemma_reached_whatever_sign(n, current, label_abs(current) as i32, to);
    }
}

} // verus!
