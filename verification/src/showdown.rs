//! Showdown resolution: which players hold the best hand.

use vstd::prelude::*;
use crate::cards::HandRank;

verus! {

/// The best score among the first `n` ranks (`n >= 1`).
pub open spec fn best_score(s: Seq<HandRank>, n: int) -> u32
    decreases n,
{
    if n <= 1 {
        s[0].0
    } else {
        let m = best_score(s, n - 1);
        if s[n - 1].0 > m { s[n - 1].0 } else { m }
    }
}

/// The positions among the first `n` ranks whose score is `v`, in order.
pub open spec fn positions_with(s: Seq<HandRank>, v: u32, n: int) -> Seq<usize>
    decreases n,
{
    if n <= 0 {
        seq![]
    } else {
        positions_with(s, v, n - 1) + if s[n - 1].0 == v { seq![(n - 1) as usize] } else { seq![] }
    }
}

/// The positions of every player tied for the best hand, in input order
/// (empty for no players).
pub open spec fn showdown_winners(s: Seq<HandRank>) -> Seq<usize> {
    if s.len() == 0 {
        seq![]
    } else {
        positions_with(s, best_score(s, s.len() as int), s.len() as int)
    }
}

/// `best_score` is the maximum of the first `n` scores, and one of them.
pub proof fn lemma_best_score_is_max(s: Seq<HandRank>, n: int)
    requires
        1 <= n <= s.len(),
    ensures
        forall|i: int| 0 <= i < n ==> #[trigger] s[i].0 <= best_score(s, n),
        exists|i: int| 0 <= i < n && #[trigger] s[i].0 == best_score(s, n),
    decreases n,
{
    if n > 1 {
        lemma_best_score_is_max(s, n - 1);
        if s[n - 1].0 > best_score(s, n - 1) {
            assert(s[n - 1].0 == best_score(s, n));
        } else {
            let i = choose|i: int| 0 <= i < n - 1 && #[trigger] s[i].0 == best_score(s, n - 1);
            assert(s[i].0 == best_score(s, n));
        }
    } else {
        assert(s[0].0 == best_score(s, n));
    }
}

/// `positions_with` lists exactly the positions below `n` holding `v`, in
/// increasing order.
pub proof fn lemma_positions_with(s: Seq<HandRank>, v: u32, n: int)
    requires
        0 <= n <= s.len(),
        s.len() <= usize::MAX,
    ensures
        forall|k: int| 0 <= k < positions_with(s, v, n).len() ==>
            (#[trigger] positions_with(s, v, n)[k]) < n && s[positions_with(s, v, n)[k] as int].0 == v,
        forall|k: int, l: int| 0 <= k < l < positions_with(s, v, n).len() ==>
            #[trigger] positions_with(s, v, n)[k] < #[trigger] positions_with(s, v, n)[l],
        forall|i: int| 0 <= i < n && #[trigger] s[i].0 == v ==> positions_with(s, v, n).contains(i as usize),
    decreases n,
{
    if n > 0 {
        lemma_positions_with(s, v, n - 1);
        let a = positions_with(s, v, n - 1);
        let b: Seq<usize> = if s[n - 1].0 == v { seq![(n - 1) as usize] } else { seq![] };
        let p = positions_with(s, v, n);
        assert(p == a + b);
        assert forall|k: int| 0 <= k < p.len() implies (#[trigger] p[k]) < n && s[p[k] as int].0 == v by {
            if k < a.len() {
                assert(p[k] == a[k]);
            } else {
                assert(p[k] == b[k - a.len()]);
            }
        }
        assert forall|k: int, l: int| 0 <= k < l < p.len() implies #[trigger] p[k] < #[trigger] p[l] by {
            if l < a.len() {
                assert(p[k] == a[k] && p[l] == a[l]);
            } else if k < a.len() {
                assert(p[k] == a[k] && p[l] == b[l - a.len()]);
            }
        }
        assert forall|i: int| 0 <= i < n && #[trigger] s[i].0 == v implies p.contains(i as usize) by {
            if i < n - 1 {
                let k = choose|k: int| 0 <= k < a.len() && a[k] == i as usize;
                assert(p[k] == a[k]);
            } else {
                assert(p[a.len() as int] == (n - 1) as usize);
            }
        }
    }
}

/// Given one hand rank per player, return the indices of all players tied
/// for the best hand, in input order. Empty input gives an empty result.
pub fn reference_showdown_winners(ranks: &[HandRank]) -> (winners: Vec<usize>)
    ensures
        winners@ == showdown_winners(ranks@),
        ranks@.len() > 0 ==> winners@.len() > 0,
        forall|k: int, i: int| 0 <= k < winners@.len() && 0 <= i < ranks@.len() ==>
            #[trigger] ranks@[i].0 <= #[trigger] ranks@[winners@[k] as int].0,
{
    if ranks.len() == 0 {
        return Vec::new();
    }
    let ghost s = ranks@;
    let mut best = ranks[0];
    let mut i: usize = 1;
    while i < ranks.len()
        invariant
            1 <= i <= ranks@.len(),
            s == ranks@,
            best.0 == best_score(s, i as int),
        decreases ranks.len() - i,
    {
        let r = ranks[i];
        if r.0 > best.0 {
            best = r;
        }
        i += 1;
    }
    let mut winners: Vec<usize> = Vec::new();
    let mut j: usize = 0;
    while j < ranks.len()
        invariant
            j <= ranks@.len(),
            s == ranks@,
            winners@ == positions_with(s, best.0, j as int),
        decreases ranks.len() - j,
    {
        if ranks[j].0 == best.0 {
            winners.push(j);
        }
        j += 1;
    }
    proof {
        let n = s.len() as int;
        lemma_best_score_is_max(s, n);
        lemma_positions_with(s, best.0, n);
        let w = choose|i: int| 0 <= i < n && #[trigger] s[i].0 == best_score(s, n);
        assert(winners@.contains(w as usize));
        assert forall|k: int, i: int| 0 <= k < winners@.len() && 0 <= i < ranks@.len() implies
            #[trigger] ranks@[i].0 <= #[trigger] ranks@[winners@[k] as int].0 by {
            assert(s[i].0 <= best_score(s, n));
        }
    }
    winners
}

} // verus!
