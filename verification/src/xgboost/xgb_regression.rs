//! Random row subsampling used when boosting each tree.

use rand::rngs::StdRng;
use rand::seq::SliceRandom;
use vstd::prelude::*;

verus! {

/// The generator of random numbers used by the boosting loop.
#[verifier::external_type_specification]
#[verifier::external_body]
pub struct ExStdRng(StdRng);

/// Calls `rand::seq::SliceRandom::shuffle` on `values`.
/// Claimed: the slice after the call holds the same elements, each as often as before
/// (the crate's Fisher-Yates loop only swaps elements). Which order comes out depends on
/// the state of `rng` and is not stated.
#[verifier::external_body]
fn shuffle_in_place(values: &mut Vec<usize>, rng: &mut StdRng)
    ensures
        final(values)@.to_multiset() == old(values)@.to_multiset(),
{
    values.shuffle(rng);
}

/// The positions selected by a 0/1 mask.
pub open spec fn selected(mask: Seq<usize>) -> Set<usize> {
    Set::new(|j: usize| j < mask.len() && mask[j as int] == 1)
}

/// Builds a mask of length `nrows` that holds 1 at each of the first `subsample_size`
/// entries of `order`, and 0 elsewhere.
pub fn mask_from_order(nrows: usize, order: &Vec<usize>, subsample_size: usize) -> (mask: Vec<usize>)
    requires
        subsample_size <= order.len(),
        forall|t: int| 0 <= t < subsample_size ==> order@[t] < nrows,
    ensures
        mask.len() == nrows,
        forall|j: int|
            0 <= j < nrows ==> mask@[j] == (if order@.take(subsample_size as int).contains(
                j as usize,
            ) {
                1usize
            } else {
                0usize
            }),
{
    let mut mask: Vec<usize> = vec![0; nrows];
    let mut i: usize = 0;
    while i < subsample_size
        invariant
            i <= subsample_size,
            subsample_size <= order.len(),
            forall|t: int| 0 <= t < subsample_size ==> order@[t] < nrows,
            mask.len() == nrows,
            forall|j: int|
                0 <= j < nrows ==> mask@[j] == (if order@.take(i as int).contains(j as usize) {
                    1usize
                } else {
                    0usize
                }),
        decreases subsample_size - i,
    {
        let selected_index = order[i];
        mask.set(selected_index, 1);
        proof {
            assert(order@.take(i + 1) == order@.take(i as int).push(order@[i as int]));
            assert(order@.take(i + 1)[i as int] == selected_index);
            assert forall|j: int| 0 <= j < nrows implies mask@[j] == (if order@.take(
                i + 1,
            ).contains(j as usize) {
                1usize
            } else {
                0usize
            }) by {
                if order@.take(i as int).contains(j as usize) {
                    let t = choose|t: int| 0 <= t < i && #[trigger] order@.take(i as int)[t] == j as usize;
                    assert(order@.take(i + 1)[t] == j as usize);
                }
                if order@.take(i + 1).contains(j as usize) && j != selected_index {
                    let t = choose|t: int| 0 <= t < i + 1 && #[trigger] order@.take(i + 1)[t] == j as usize;
                    assert(order@.take(i as int)[t] == j as usize);
                }
            }
        }
        i = i + 1;
    }
    mask
}

/// Draws a mask over `nrows` rows that selects `min(subsample_size, nrows)` distinct rows:
/// the indices `0..nrows` are shuffled with `rng` and the first `subsample_size` of them
/// are marked with 1. A size above `nrows` is capped at `nrows`, so that every row is
/// selected.
pub fn create_subsample_mask(nrows: usize, subsample_size: usize, rng: &mut StdRng) -> (mask: Vec<usize>)
    ensures
        mask.len() == nrows,
        forall|j: int| 0 <= j < nrows ==> mask@[j] == 0 || mask@[j] == 1,
        selected(mask@).len() == if subsample_size <= nrows {
            subsample_size
        } else {
            nrows
        },
        subsample_size >= nrows ==> forall|j: int| 0 <= j < nrows ==> mask@[j] == 1,
{
    // Never sample more rows than there are.
    let size: usize = if subsample_size <= nrows {
        subsample_size
    } else {
        nrows
    };
    let mut all_indices: Vec<usize> = Vec::new();
    let mut i: usize = 0;
    while i < nrows
        invariant
            i <= nrows,
            all_indices@ == Seq::new(i as nat, |t: int| t as usize),
        decreases nrows - i,
    {
        all_indices.push(i);
        i = i + 1;
    }
    let ghost before = all_indices@;
    proof {
        assert(before.no_duplicates());
        before.lemma_multiset_has_no_duplicates();
        before.to_multiset_ensures();
    }
    shuffle_in_place(&mut all_indices, rng);
    let ghost after = all_indices@;
    proof {
        after.to_multiset_ensures();
        assert(after.len() == nrows);
        assert forall|t: int| 0 <= t < after.len() implies after[t] < nrows by {
            assert(after.to_multiset().count(after[t]) > 0);
            assert(before.contains(after[t]));
        }
        assert forall|x: usize| after.to_multiset().contains(x) implies after.to_multiset().count(x) == 1 by {
            assert(before.to_multiset().contains(x));
        }
        after.lemma_multiset_has_no_duplicates_conv();
    }
    let mask = mask_from_order(nrows, &all_indices, size);
    proof {
        let chosen = after.take(size as int);
        assert forall|a: int, b: int| 0 <= a < chosen.len() && 0 <= b < chosen.len() && a != b
            implies chosen[a] != chosen[b] by {
            assert(chosen[a] == after[a] && chosen[b] == after[b]);
        }
        assert(chosen.no_duplicates());
        chosen.unique_seq_to_set();
        assert(selected(mask@) =~= chosen.to_set());
        if size == nrows {
            assert(chosen =~= after);
            assert forall|j: int| 0 <= j < nrows implies mask@[j] == 1 by {
                assert(before[j] == j as usize);
                assert(before.to_multiset().count(j as usize) > 0);
                assert(after.to_multiset().count(j as usize) > 0);
                assert(after.contains(j as usize));
            }
        }
    }
    mask
}

} // verus!
