//! Ranking: the best-scored entries of a list, best first.

use vstd::prelude::*;

verus! {

/// Whether `picks` names the best entries of `scores`, best first, as far as
/// `limit` allows: the picks are indices of `scores`, none of them twice, at
/// most `limit` of them; no pick scores less than a later pick, or than an
/// entry that was not picked; and fewer than `limit` are picked only if every
/// entry is.
pub open spec fn is_top(scores: Seq<usize>, limit: nat, picks: Seq<usize>) -> bool {
    &&& picks.len() <= limit
    &&& picks.no_duplicates()
    &&& forall|a: int| 0 <= a < picks.len() ==> (#[trigger] picks[a]) < scores.len()
    &&& forall|a: int, b: int|
        0 <= a < b < picks.len() ==> scores[picks[a] as int] >= scores[picks[b] as int]
    &&& forall|a: int, m: usize|
        0 <= a < picks.len() && m < scores.len() && !picks.contains(m) ==> scores[#[trigger] picks[a] as int]
            >= #[trigger] scores[m as int]
    &&& picks.len() < limit ==> forall|m: usize| m < scores.len() ==> #[trigger] picks.contains(m)
}

/// How many of `flags` are not set.
pub open spec fn unset(flags: Seq<bool>) -> nat
    decreases flags.len(),
{
    if flags.len() == 0 {
        0
    } else {
        unset(flags.drop_last()) + if flags.last() {
            0nat
        } else {
            1nat
        }
    }
}

/// Setting a flag that was not set leaves one fewer unset.
proof fn lemma_unset_set(flags: Seq<bool>, i: int)
    requires
        0 <= i < flags.len(),
        !flags[i],
    ensures
        unset(flags.update(i, true)) + 1 == unset(flags),
    decreases flags.len(),
{
    let after = flags.update(i, true);
    if i == flags.len() - 1 {
        assert(after.drop_last() == flags.drop_last());
    } else {
        assert(after.drop_last() == flags.drop_last().update(i, true));
        lemma_unset_set(flags.drop_last(), i);
    }
}

/// The first of the best-scored entries that are not taken yet, if any is
/// left.
fn best_left(scores: &Vec<usize>, taken: &Vec<bool>) -> (best: Option<usize>)
    requires
        taken.len() == scores.len(),
    ensures
        match best {
            Some(b) => {
                &&& b < scores.len()
                &&& !taken[b as int]
                &&& forall|m: int| 0 <= m < scores.len() && !taken[m] ==> scores[b as int] >= scores[m]
            },
            None => forall|m: int| 0 <= m < scores.len() ==> taken[m],
        },
{
    let mut best: Option<usize> = None;
    let mut m: usize = 0;
    while m < scores.len()
        invariant
            m <= scores.len(),
            taken.len() == scores.len(),
            match best {
                Some(b) => {
                    &&& b < m
                    &&& !taken[b as int]
                    &&& forall|n: int| 0 <= n < m && !taken[n] ==> scores[b as int] >= scores[n]
                },
                None => forall|n: int| 0 <= n < m ==> taken[n],
            },
        decreases scores.len() - m,
    {
        if !taken[m] {
            let better: bool = match best {
                Some(b) => scores[m] > scores[b],
                None => true,
            };
            if better {
                best = Some(m);
            }
        }
        m = m + 1;
    }
    best
}

/// The indices of the best entries of `scores`, best first, at most `limit`
/// of them. Of entries with one score, the one that stands first in `scores`
/// is picked first.
pub fn top_indices(scores: &Vec<usize>, limit: usize) -> (picks: Vec<usize>)
    ensures
        is_top(scores@, limit as nat, picks@),
{
    let mut picks: Vec<usize> = Vec::new();
    let mut taken: Vec<bool> = Vec::new();
    let mut k: usize = 0;
    while k < scores.len()
        invariant
            k <= scores.len(),
            taken.len() == k,
            forall|m: int| 0 <= m < k ==> !taken[m],
        decreases scores.len() - k,
    {
        taken.push(false);
        k = k + 1;
    }
    let mut complete: bool = false;
    while picks.len() < limit && !complete
        invariant
            picks.len() <= limit,
            taken.len() == scores.len(),
            picks@.no_duplicates(),
            forall|a: int| 0 <= a < picks.len() ==> (#[trigger] picks[a]) < scores.len(),
            forall|m: usize|
                m < scores.len() ==> (taken[m as int] <==> #[trigger] picks@.contains(m)),
            forall|a: int, b: int|
                0 <= a < b < picks.len() ==> scores[picks[a] as int] >= scores[picks[b] as int],
            forall|a: int, m: int|
                0 <= a < picks.len() && 0 <= m < scores.len() && !taken[m]
                    ==> scores[#[trigger] picks[a] as int] >= #[trigger] scores[m],
            complete ==> forall|m: int| 0 <= m < scores.len() ==> taken[m],
        decreases unset(taken@) + if complete { 0nat } else { 1nat },
    {
        match best_left(scores, &taken) {
            Some(b) => {
                proof {
                    lemma_unset_set(taken@, b as int);
                    let ghost grown = picks@.push(b);
                    assert(taken[b as int] <==> picks@.contains(b));
                    assert forall|x: int, y: int|
                        0 <= x < grown.len() && 0 <= y < grown.len() && x != y implies grown[x]
                        != grown[y] by {
                        if x == picks.len() {
                            assert(picks[y] == grown[y]);
                        } else if y == picks.len() {
                            assert(picks[x] == grown[x]);
                        }
                    }
                    assert forall|m: usize| m < scores.len() implies (taken@.update(
                        b as int,
                        true,
                    )[m as int] <==> #[trigger] grown.contains(m)) by {
                        assert(taken[m as int] <==> picks@.contains(m));
                        if m == b {
                            assert(grown[picks.len() as int] == b);
                        } else if taken[m as int] {
                            let a = choose|a: int| 0 <= a < picks.len() && picks[a] == m;
                            assert(grown[a] == m);
                        } else if grown.contains(m) {
                            let a = choose|a: int| 0 <= a < grown.len() && grown[a] == m;
                            assert(picks[a] == m);
                        }
                    }
                }
                taken.set(b, true);
                picks.push(b);
            },
            None => {
                complete = true;
            },
        }
    }
    picks
}

} // verus!
