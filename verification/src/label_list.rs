//! Lists of basis labels kept in increasing order of absolute value, with no
//! occupation pattern held twice.

use vstd::prelude::*;
use crate::fock_space::{abs_label, basis_size, label_abs, lemma_basis_size_bounds, valid_label};

verus! {

/// The absolute values of the labels increase strictly along the list.
pub open spec fn strictly_sorted(s: Seq<i32>) -> bool {
    forall|i: int, j: int| 0 <= i < j < s.len() ==> label_abs(s[i]) < label_abs(s[j])
}

/// Some label of the list has the occupation pattern `pattern`.
pub open spec fn has_pattern(s: Seq<i32>, pattern: u32) -> bool {
    exists|i: int| 0 <= i < s.len() && label_abs(s[i]) == pattern
}

/// No label of the list is the one integer that has no absolute value.
pub open spec fn all_bounded(s: Seq<i32>) -> bool {
    forall|i: int| 0 <= i < s.len() ==> s[i] > i32::MIN
}

/// Every label of the list lies in the basis of `n_sites` sites.
pub open spec fn all_valid(n_sites: u32, s: Seq<i32>) -> bool {
    forall|i: int| 0 <= i < s.len() ==> valid_label(n_sites, #[trigger] s[i])
}

/// Number of leading labels whose absolute value is below `pattern`.
pub open spec fn first_not_below(s: Seq<i32>, pattern: u32) -> int
    decreases s.len(),
{
    if s.len() == 0 || label_abs(s[0]) >= pattern {
        0
    } else {
        1 + first_not_below(s.drop_first(), pattern)
    }
}

/// The sorted list `s` after `label` has joined it: unchanged when the
/// pattern of `label` is already there, else with `label` at its place.
pub open spec fn with_label(s: Seq<i32>, label: i32) -> Seq<i32> {
    let at = first_not_below(s, label_abs(label));
    if at < s.len() && label_abs(s[at]) == label_abs(label) {
        s
    } else {
        s.insert(at, label)
    }
}

/// The count of leading smaller labels can be taken in two parts.
pub proof fn lemma_first_not_below_split(s: Seq<i32>, pattern: u32, k: int)
    requires
        0 <= k <= s.len(),
        forall|i: int| 0 <= i < k ==> label_abs(s[i]) < pattern,
    ensures
        first_not_below(s, pattern) == k + first_not_below(s.skip(k), pattern),
    decreases k,
{
    if k == 0 {
        assert(s.skip(0) =~= s);
    } else {
        let rest = s.drop_first();
        assert forall|i: int| 0 <= i < k - 1 implies label_abs(rest[i]) < pattern by {
            assert(rest[i] == s[i + 1]);
        }
        lemma_first_not_below_split(rest, pattern, k - 1);
        assert(rest.skip(k - 1) =~= s.skip(k));
    }
}

/// In a sorted list the count of leading smaller labels is where the labels
/// stop being smaller.
pub proof fn lemma_first_not_below_sorted(s: Seq<i32>, pattern: u32)
    requires
        strictly_sorted(s),
    ensures
        0 <= first_not_below(s, pattern) <= s.len(),
        forall|i: int| 0 <= i < first_not_below(s, pattern) ==> label_abs(s[i]) < pattern,
        forall|i: int| first_not_below(s, pattern) <= i < s.len() ==> label_abs(s[i]) >= pattern,
    decreases s.len(),
{
    if s.len() == 0 || label_abs(s[0]) >= pattern {
    } else {
        let rest = s.drop_first();
        assert forall|i: int, j: int| 0 <= i < j < rest.len() implies label_abs(rest[i])
            < label_abs(rest[j]) by {
            assert(rest[i] == s[i + 1] && rest[j] == s[j + 1]);
        }
        lemma_first_not_below_sorted(rest, pattern);
        let at = first_not_below(rest, pattern);
        assert forall|i: int| 0 <= i < at + 1 implies label_abs(s[i]) < pattern by {
            if i > 0 {
                assert(rest[i - 1] == s[i]);
            }
        }
        assert forall|i: int| at + 1 <= i < s.len() implies label_abs(s[i]) >= pattern by {
            assert(rest[i - 1] == s[i]);
        }
    }
}

/// What joining a label does to a sorted list: the list stays sorted, holds
/// what it held, and gains the label exactly when its pattern is new.
pub proof fn lemma_with_label(s: Seq<i32>, label: i32)
    requires
        strictly_sorted(s),
    ensures
        strictly_sorted(with_label(s, label)),
        has_pattern(s, label_abs(label)) ==> with_label(s, label) == s,
        !has_pattern(s, label_abs(label)) ==> with_label(s, label).len() == s.len() + 1,
        forall|x: i32| #[trigger]
            with_label(s, label).contains(x) <==> s.contains(x) || (x == label && !has_pattern(
                s,
                label_abs(label),
            )),
        has_pattern(with_label(s, label), label_abs(label)),
{
    let pattern = label_abs(label);
    let at = first_not_below(s, pattern);
    lemma_first_not_below_sorted(s, pattern);
    let r = with_label(s, label);
    if at < s.len() && label_abs(s[at]) == pattern {
        assert(has_pattern(s, pattern));
    } else {
        assert(!has_pattern(s, pattern)) by {
            if has_pattern(s, pattern) {
                let i = choose|i: int| 0 <= i < s.len() && label_abs(s[i]) == pattern;
                assert(i >= at);
                assert(label_abs(s[at]) <= label_abs(s[i]));
            }
        }
        assert(r[at] == label);
        assert forall|i: int, j: int| 0 <= i < j < r.len() implies label_abs(r[i]) < label_abs(
            r[j],
        ) by {
            if i < at {
                assert(r[i] == s[i]);
            } else if i > at {
                assert(r[i] == s[i - 1]);
            }
            if j < at {
                assert(r[j] == s[j]);
            } else if j > at {
                assert(r[j] == s[j - 1]);
            }
        }
        assert forall|x: i32| #[trigger] r.contains(x) <==> s.contains(x) || x == label by {
            if r.contains(x) {
                let i = choose|i: int| 0 <= i < r.len() && r[i] == x;
                if i < at {
                    assert(s[i] == x);
                } else if i > at {
                    assert(s[i - 1] == x);
                }
            }
            if s.contains(x) {
                let i = choose|i: int| 0 <= i < s.len() && s[i] == x;
                if i < at {
                    assert(r[i] == x);
                } else {
                    assert(r[i + 1] == x);
                }
            }
        }
    }
    assert(has_pattern(r, pattern)) by {
        assert(label_abs(r[at]) == pattern);
    }
}

/// The occupation patterns of a sorted list after a label has joined are
/// those it held and the pattern of the label.
pub proof fn lemma_with_label_patterns(s: Seq<i32>, label: i32, pattern: u32)
    requires
        strictly_sorted(s),
    ensures
        has_pattern(with_label(s, label), pattern) <==> has_pattern(s, pattern) || pattern
            == label_abs(label),
{
    let r = with_label(s, label);
    lemma_with_label(s, label);
    if has_pattern(r, pattern) {
        let i = choose|i: int| 0 <= i < r.len() && label_abs(r[i]) == pattern;
        assert(r.contains(r[i]));
        if s.contains(r[i]) {
            let k = choose|k: int| 0 <= k < s.len() && s[k] == r[i];
            assert(label_abs(s[k]) == pattern);
        }
    }
    if has_pattern(s, pattern) {
        let i = choose|i: int| 0 <= i < s.len() && label_abs(s[i]) == pattern;
        assert(s.contains(s[i]));
        assert(r.contains(s[i]));
        let k = choose|k: int| 0 <= k < r.len() && r[k] == s[i];
        assert(label_abs(r[k]) == pattern);
    }
}

/// In a sorted list the label at index `i` has an absolute value of at
/// least `i`, so a list below a bound is no longer than the bound.
pub proof fn lemma_sorted_index_bound(s: Seq<i32>, i: int)
    requires
        strictly_sorted(s),
        0 <= i < s.len(),
    ensures
        label_abs(s[i]) >= i,
    decreases i,
{
    if i > 0 {
        lemma_sorted_index_bound(s, i - 1);
    }
}

/// A sorted list of labels of one basis is no longer than the basis.
pub proof fn lemma_sorted_len_bound(n_sites: u32, s: Seq<i32>)
    requires
        strictly_sorted(s),
        all_valid(n_sites, s),
    ensures
        s.len() <= basis_size(n_sites),
        s.len() > 0 ==> basis_size(n_sites) <= 0x4000_0000,
        all_bounded(s),
{
    if s.len() > 0 {
        lemma_sorted_index_bound(s, s.len() - 1);
        assert(valid_label(n_sites, s[s.len() - 1]));
        lemma_basis_size_bounds(n_sites);
        assert forall|i: int| 0 <= i < s.len() implies s[i] > i32::MIN by {
            assert(valid_label(n_sites, s[i]));
        }
    }
}

/// Joining a label of the basis to a list of labels of the basis gives such
/// a list again.
pub proof fn lemma_with_label_valid(n_sites: u32, s: Seq<i32>, label: i32)
    requires
        strictly_sorted(s),
        all_valid(n_sites, s),
        valid_label(n_sites, label),
    ensures
        all_valid(n_sites, with_label(s, label)),
{
    lemma_with_label(s, label);
    let r = with_label(s, label);
    assert forall|i: int| 0 <= i < r.len() implies valid_label(n_sites, #[trigger] r[i]) by {
        assert(r.contains(r[i]));
        if s.contains(r[i]) {
            let k = choose|k: int| 0 <= k < s.len() && s[k] == r[i];
            assert(valid_label(n_sites, s[k]));
        }
    }
}

/// Puts `label` into the sorted list at its place, unless a label with the
/// same absolute value is already there.
pub fn insert_label(list: &mut Vec<i32>, label: i32)
    requires
        strictly_sorted(old(list)@),
        all_bounded(old(list)@),
        label > i32::MIN,
        old(list).len() < usize::MAX,
    ensures
        final(list)@ == with_label(old(list)@, label),
        strictly_sorted(final(list)@),
        all_bounded(final(list)@),
{
    let pattern = abs_label(label);
    let mut at: usize = 0;
    while at < list.len() && abs_label(list[at]) < pattern
        invariant
            at <= list.len(),
            list@ == old(list)@,
            all_bounded(list@),
            forall|i: int| 0 <= i < at ==> label_abs(list@[i]) < pattern,
        decreases list.len() - at,
    {
        at += 1;
    }
    proof {
        lemma_first_not_below_split(list@, pattern, at as int);
        lemma_with_label(list@, label);
    }
    if at < list.len() && abs_label(list[at]) == pattern {
    } else {
        list.insert(at, label);
        proof {
            let r = list@;
            assert forall|i: int| 0 <= i < r.len() implies r[i] > i32::MIN by {
                if i < at {
                    assert(r[i] == old(list)@[i]);
                } else if i > at {
                    assert(r[i] == old(list)@[i - 1]);
                }
            }
        }
    }
}

/// Whether some label of the list has the occupation pattern `pattern`.
pub fn contains_pattern(list: &Vec<i32>, pattern: u32) -> (found: bool)
    requires
        all_bounded(list@),
    ensures
        found == has_pattern(list@, pattern),
{
    let mut k: usize = 0;
    while k < list.len()
        invariant
            k <= list.len(),
            all_bounded(list@),
            forall|i: int| 0 <= i < k ==> label_abs(list@[i]) != pattern,
        decreases list.len() - k,
    {
        if abs_label(list[k]) == pattern {
            return true;
        }
        k += 1;
    }
    false
}

} // verus!
