//! The ordered pairs of distinct lattice sites between which a fermion hops.

use vstd::prelude::*;
use itertools::Itertools;

verus! {

/// The pair at position `idx` when all ordered pairs of entries of `items`
/// at distinct positions are listed by first position, then by second.
pub open spec fn ordered_pair(items: Seq<i32>, idx: int) -> (i32, i32) {
    let first = idx / (items.len() - 1);
    let rest = idx % (items.len() - 1);
    (
        items[first],
        items[if rest < first {
            rest
        } else {
            rest + 1
        }],
    )
}

/// All ordered pairs of entries of `items` at distinct positions, listed by
/// first position, then by second.
pub open spec fn ordered_pairs(items: Seq<i32>) -> Seq<(i32, i32)> {
    Seq::new((items.len() * (items.len() - 1)) as nat, |idx: int| ordered_pair(items, idx))
}

/// The list `s` without the entries that repeat an earlier one.
pub open spec fn first_occurrences(s: Seq<(i32, i32)>) -> Seq<(i32, i32)>
    decreases s.len(),
{
    if s.len() == 0 {
        s
    } else {
        let head = first_occurrences(s.drop_last());
        if head.contains(s.last()) {
            head
        } else {
            head.push(s.last())
        }
    }
}

/// The sites `0, 1, .., n_sites - 1`.
pub open spec fn site_range(n_sites: u32) -> Seq<i32> {
    Seq::new(n_sites as nat, |k: int| k as i32)
}

/// The ordered pairs of distinct sites of a lattice with `n_sites` sites.
pub open spec fn site_pair_list(n_sites: u32) -> Seq<(i32, i32)> {
    ordered_pairs(site_range(n_sites))
}

/// `Itertools::permutations` with a length of two, each permutation turned
/// into a tuple. The adaptor yields the pairs of entries at distinct
/// positions in lexicographic order of the positions, whatever the values.
#[verifier::external_body]
fn permutations_of_two(items: &Vec<i32>) -> (pairs: Vec<(i32, i32)>)
    ensures
        pairs@ == ordered_pairs(items@),
{
    items.iter().permutations(2).map(|p| (*p[0], *p[1])).collect()
}

/// `Itertools::unique`: the entries in their order, each kept only where it
/// occurs first.
#[verifier::external_body]
fn unique_pairs(pairs: Vec<(i32, i32)>) -> (kept: Vec<(i32, i32)>)
    ensures
        kept@ == first_occurrences(pairs@),
{
    pairs.into_iter().unique().collect()
}

/// A list without repetitions is its own list of first occurrences.
pub proof fn lemma_first_occurrences_of_distinct(s: Seq<(i32, i32)>)
    requires
        s.no_duplicates(),
    ensures
        first_occurrences(s) == s,
    decreases s.len(),
{
    if s.len() > 0 {
        let head = s.drop_last();
        lemma_first_occurrences_of_distinct(head);
        if head.contains(s.last()) {
            let i = choose|i: int| 0 <= i < head.len() && head[i] == s.last();
            assert(s[i] == s[s.len() - 1]);
        }
        assert(head.push(s.last()) =~= s);
    }
}

/// Each pair of the list holds two different sites of the lattice, and no
/// pair occurs twice.
pub proof fn lemma_site_pair_list(n_sites: u32)
    requires
        n_sites <= i32::MAX,
    ensures
        site_pair_list(n_sites).len() == n_sites * (n_sites - 1),
        site_pair_list(n_sites).no_duplicates(),
        forall|idx: int|
            0 <= idx < site_pair_list(n_sites).len() ==> {
                let pair = #[trigger] site_pair_list(n_sites)[idx];
                0 <= pair.0 < n_sites && 0 <= pair.1 < n_sites && pair.0 != pair.1
            },
{
    let n = n_sites as int;
    let items = site_range(n_sites);
    let list = site_pair_list(n_sites);
    assert(n * (n - 1) >= 0) by (nonlinear_arith)
        requires
            n >= 0,
    ;
    assert forall|idx: int| 0 <= idx < list.len() implies {
        let first = idx / (n - 1);
        let rest = idx % (n - 1);
        let second = if rest < first {
            rest
        } else {
            rest + 1
        };
        &&& 0 <= first < n
        &&& 0 <= rest < n - 1
        &&& idx == first * (n - 1) + rest
        &&& #[trigger] list[idx] == (first as i32, second as i32)
    } by {
        let d = n - 1;
        assert(d > 0) by (nonlinear_arith)
            requires
                0 <= idx < n * (n - 1),
                n >= 0,
                d == n - 1,
        ;
        assert(0 <= idx / d < n && 0 <= idx % d < d && idx == (idx / d) * d + idx % d)
            by (nonlinear_arith)
            requires
                0 <= idx < n * d,
                d > 0,
        ;
    }
    assert forall|a: int, b: int| 0 <= a < list.len() && 0 <= b < list.len() && a != b implies list[a]
        != list[b] by {
        let fa = a / (n - 1);
        let fb = b / (n - 1);
        if fa == fb && list[a].1 == list[b].1 {
            assert(a % (n - 1) == b % (n - 1));
        }
    }
}

/// The ordered pairs of distinct sites, first site varying slowest.
pub fn site_pairs(n_sites: u32) -> (pairs: Vec<(i32, i32)>)
    requires
        n_sites <= i32::MAX,
    ensures
        pairs@ == site_pair_list(n_sites),
{
    let mut sites: Vec<i32> = Vec::new();
    let mut site: u32 = 0;
    while site < n_sites
        invariant
            site <= n_sites <= i32::MAX,
            sites@ == site_range(site),
        decreases n_sites - site,
    {
        sites.push(site as i32);
        site += 1;
        assert(sites@ =~= site_range(site));
    }
    let pairs = unique_pairs(permutations_of_two(&sites));
    proof {
        lemma_site_pair_list(n_sites);
        lemma_first_occurrences_of_distinct(site_pair_list(n_sites));
    }
    pairs
}

} // verus!
