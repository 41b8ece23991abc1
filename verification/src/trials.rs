//! What a sequence of trials does to a configuration: the model over which
//! the engine states its result, whatever was drawn.

use crate::configuration::all_spins;
use crate::configuration::flipped;
use crate::engine::Acceptance;
use crate::physics::flip_cost;
use crate::physics::total_spin;
use crate::rng::RESOLUTION;
use crate::sums::lemma_sum_add;
use crate::sums::lemma_sum_bounded;
use crate::sums::lemma_sum_nonnegative;
use crate::sums::lemma_sum_one;
use crate::sums::sum;
use vstd::prelude::*;

verus! {

/// Every pick names a site of a lattice of `sites` sites and a draw below
/// `RESOLUTION`.
pub open spec fn valid_picks(picks: Seq<(int, int)>, sites: int) -> bool {
    forall|k: int|
        0 <= k < picks.len() ==> 0 <= (#[trigger] picks[k]).0 < sites && 0 <= picks[k].1
            < RESOLUTION
}

/// One trial at the site and with the draw of `pick`, on the spins
/// `state.0`, with `state.1` the energy gained and `state.2` the number of
/// flips accepted so far.
pub open spec fn after_trial(
    state: (Seq<i32>, int, int),
    lx: int,
    ly: int,
    a: Acceptance,
    pick: (int, int),
) -> (Seq<i32>, int, int) {
    let cost = flip_cost(state.0, lx, ly, pick.0);
    if a.accepts(cost, pick.1) {
        (flipped(state.0, pick.0), state.1 + cost, state.2 + 1)
    } else {
        state
    }
}

/// The trials of `picks`, one after the other, from the spins `s`: the
/// spins that result, the energy gained and the number of flips accepted.
pub open spec fn after_trials(s: Seq<i32>, lx: int, ly: int, a: Acceptance, picks: Seq<(int, int)>) -> (
    Seq<i32>,
    int,
    int,
)
    decreases picks.len(),
{
    if picks.len() == 0 {
        (s, 0, 0)
    } else {
        after_trial(after_trials(s, lx, ly, a, picks.drop_last()), lx, ly, a, picks.last())
    }
}

/// The first `sweeps` sweeps of `picks`, a sweep being one trial per site.
pub open spec fn after_sweeps(
    s: Seq<i32>,
    lx: int,
    ly: int,
    a: Acceptance,
    picks: Seq<(int, int)>,
    sweeps: int,
) -> (Seq<i32>, int, int) {
    after_trials(s, lx, ly, a, picks.take(sweeps * (lx * ly)))
}

/// `picks` are `trials` trials that lead from the spins `s` to the spins
/// `t`, gain the energy `gained` and accept `accepted` flips.
pub open spec fn is_run(
    picks: Seq<(int, int)>,
    s: Seq<i32>,
    lx: int,
    ly: int,
    a: Acceptance,
    trials: int,
    t: Seq<i32>,
    gained: int,
    accepted: int,
) -> bool {
    &&& picks.len() == trials
    &&& valid_picks(picks, lx * ly)
    &&& after_trials(s, lx, ly, a, picks).0 == t
    &&& after_trials(s, lx, ly, a, picks).1 == gained
    &&& after_trials(s, lx, ly, a, picks).2 == accepted
}

/// From entry `from` on, the two series hold one sample per sweep of
/// `picks`, the first of them after `skipped + 1` sweeps: the running energy,
/// which was `start` before the first trial, and the sum of the spins.
pub open spec fn is_sampled(
    picks: Seq<(int, int)>,
    s: Seq<i32>,
    lx: int,
    ly: int,
    a: Acceptance,
    start: int,
    skipped: int,
    energies: Seq<i64>,
    magnetisations: Seq<i32>,
    from: int,
) -> bool {
    &&& forall|k: int|
        from <= k < energies.len() ==> #[trigger] energies[k] == start + after_sweeps(
            s,
            lx,
            ly,
            a,
            picks,
            skipped + k - from + 1,
        ).1
    &&& forall|k: int|
        from <= k < magnetisations.len() ==> #[trigger] magnetisations[k] == total_spin(
            after_sweeps(s, lx, ly, a, picks, skipped + k - from + 1).0,
        )
}

/// One more trial after `picks` is one trial from where `picks` lead.
pub proof fn lemma_after_push(
    s: Seq<i32>,
    lx: int,
    ly: int,
    a: Acceptance,
    picks: Seq<(int, int)>,
    pick: (int, int),
)
    ensures
        after_trials(s, lx, ly, a, picks.push(pick)) == after_trial(
            after_trials(s, lx, ly, a, picks),
            lx,
            ly,
            a,
            pick,
        ),
{
    assert(picks.push(pick).drop_last() =~= picks);
}

/// The trials of `first` followed by those of `second` do what those of
/// `second` do from where `first` lead.
pub proof fn lemma_after_concat(
    s: Seq<i32>,
    lx: int,
    ly: int,
    a: Acceptance,
    first: Seq<(int, int)>,
    second: Seq<(int, int)>,
)
    ensures
        ({
            let mid = after_trials(s, lx, ly, a, first);
            let end = after_trials(mid.0, lx, ly, a, second);
            let all = after_trials(s, lx, ly, a, first + second);
            all.0 == end.0 && all.1 == mid.1 + end.1 && all.2 == mid.2 + end.2
        }),
    decreases second.len(),
{
    if second.len() == 0 {
        assert(first + second =~= first);
    } else {
        lemma_after_concat(s, lx, ly, a, first, second.drop_last());
        assert((first + second).drop_last() =~= first + second.drop_last());
        assert((first + second).last() == second.last());
    }
}

/// Samples of earlier sweeps stay what they are when a trial is added.
pub proof fn lemma_sampled_push(
    picks: Seq<(int, int)>,
    pick: (int, int),
    s: Seq<i32>,
    lx: int,
    ly: int,
    a: Acceptance,
    start: int,
    energies: Seq<i64>,
    magnetisations: Seq<i32>,
    from: int,
)
    requires
        is_sampled(picks, s, lx, ly, a, start, 0, energies, magnetisations, from),
        0 <= lx * ly,
        0 <= from <= energies.len() == magnetisations.len(),
        (energies.len() - from) * (lx * ly) <= picks.len(),
    ensures
        is_sampled(picks.push(pick), s, lx, ly, a, start, 0, energies, magnetisations, from),
{
    let sites = lx * ly;
    let count = energies.len() - from;
    assert forall|n: int| 1 <= n <= count implies #[trigger] picks.push(pick).take(n * sites)
        == picks.take(n * sites) by {
        assert(0 <= n * sites <= count * sites) by (nonlinear_arith)
            requires
                1 <= n <= count,
                0 <= sites,
        ;
        assert(picks.push(pick).take(n * sites) =~= picks.take(n * sites));
    }
    assert forall|k: int| from <= k < energies.len() implies #[trigger] energies[k] == start
        + after_sweeps(s, lx, ly, a, picks.push(pick), 0 + k - from + 1).1 by {
        let n = 0 + k - from + 1;
        assert(picks.push(pick).take(n * sites) == picks.take(n * sites));
    }
    assert forall|k: int| from <= k < magnetisations.len() implies #[trigger] magnetisations[k]
        == total_spin(after_sweeps(s, lx, ly, a, picks.push(pick), 0 + k - from + 1).0) by {
        let n = 0 + k - from + 1;
        assert(picks.push(pick).take(n * sites) == picks.take(n * sites));
    }
}

/// A sample taken after the last trial of `picks` continues the samples.
pub proof fn lemma_sampled_record(
    picks: Seq<(int, int)>,
    s: Seq<i32>,
    lx: int,
    ly: int,
    a: Acceptance,
    start: int,
    energies: Seq<i64>,
    magnetisations: Seq<i32>,
    from: int,
    energy: i64,
    magnetisation: i32,
)
    requires
        is_sampled(picks, s, lx, ly, a, start, 0, energies, magnetisations, from),
        0 <= from <= energies.len() == magnetisations.len(),
        picks.len() == (energies.len() - from + 1) * (lx * ly),
        energy == start + after_trials(s, lx, ly, a, picks).1,
        magnetisation == total_spin(after_trials(s, lx, ly, a, picks).0),
    ensures
        is_sampled(
            picks,
            s,
            lx,
            ly,
            a,
            start,
            0,
            energies.push(energy),
            magnetisations.push(magnetisation),
            from,
        ),
{
    assert(picks.take(picks.len() as int) =~= picks);
}

/// Samples of a run that follows `first` are samples of the whole, taken
/// after the sweeps of `first`.
pub proof fn lemma_sampled_after(
    first: Seq<(int, int)>,
    second: Seq<(int, int)>,
    s: Seq<i32>,
    lx: int,
    ly: int,
    a: Acceptance,
    start: int,
    skipped: int,
    energies: Seq<i64>,
    magnetisations: Seq<i32>,
)
    requires
        0 <= lx * ly,
        0 <= skipped,
        first.len() == skipped * (lx * ly),
        second.len() == energies.len() * (lx * ly),
        energies.len() == magnetisations.len(),
        is_sampled(
            second,
            after_trials(s, lx, ly, a, first).0,
            lx,
            ly,
            a,
            start + after_trials(s, lx, ly, a, first).1,
            0,
            energies,
            magnetisations,
            0,
        ),
    ensures
        is_sampled(first + second, s, lx, ly, a, start, skipped, energies, magnetisations, 0),
        after_sweeps(s, lx, ly, a, first + second, skipped) == after_trials(s, lx, ly, a, first),
{
    let sites = lx * ly;
    let mid = after_trials(s, lx, ly, a, first);
    assert((first + second).take(skipped * sites) =~= first);
    assert forall|n: int| 1 <= n <= energies.len() implies ({
        let part = after_trials(mid.0, lx, ly, a, second.take(n * sites));
        let whole = #[trigger] after_sweeps(s, lx, ly, a, first + second, skipped + n);
        whole.0 == part.0 && whole.1 == mid.1 + part.1
    }) by {
        assert((skipped + n) * sites == skipped * sites + n * sites && 0 <= n * sites
            <= energies.len() * sites) by (nonlinear_arith)
            requires
                1 <= n <= energies.len(),
                0 <= sites,
        ;
        assert((first + second).take((skipped + n) * sites) =~= first + second.take(n * sites));
        lemma_after_concat(s, lx, ly, a, first, second.take(n * sites));
    }
    assert forall|k: int| 0 <= k < energies.len() implies #[trigger] energies[k] == start
        + after_sweeps(s, lx, ly, a, first + second, skipped + k - 0 + 1).1 by {
        let whole = after_sweeps(s, lx, ly, a, first + second, skipped + (k + 1));
        assert(after_sweeps(mid.0, lx, ly, a, second, 0 + k - 0 + 1) == after_trials(
            mid.0,
            lx,
            ly,
            a,
            second.take((k + 1) * sites),
        ));
    }
    assert forall|k: int| 0 <= k < magnetisations.len() implies #[trigger] magnetisations[k]
        == total_spin(after_sweeps(s, lx, ly, a, first + second, skipped + k - 0 + 1).0) by {
        let whole = after_sweeps(s, lx, ly, a, first + second, skipped + (k + 1));
        assert(after_sweeps(mid.0, lx, ly, a, second, 0 + k - 0 + 1) == after_trials(
            mid.0,
            lx,
            ly,
            a,
            second.take((k + 1) * sites),
        ));
    }
}

/// In the cold limit, where the flip of every site costs energy, no trial
/// changes anything.
pub proof fn lemma_cold_trials_stay(
    s: Seq<i32>,
    lx: int,
    ly: int,
    a: Acceptance,
    picks: Seq<(int, int)>,
)
    requires
        a.is_cold(),
        valid_picks(picks, lx * ly),
        forall|i: int| 0 <= i < lx * ly ==> #[trigger] flip_cost(s, lx, ly, i) > 0,
    ensures
        after_trials(s, lx, ly, a, picks).0 == s,
        after_trials(s, lx, ly, a, picks).1 == 0,
        after_trials(s, lx, ly, a, picks).2 == 0,
    decreases picks.len(),
{
    if picks.len() > 0 {
        lemma_cold_trials_stay(s, lx, ly, a, picks.drop_last());
        assert(0 <= picks[picks.len() - 1].0 < lx * ly);
        assert(flip_cost(s, lx, ly, picks.last().0) > 0);
    }
}

/// Whether the spins `s` and `t` differ at site `i`, as a number.
pub open spec fn differs_at(s: Seq<i32>, t: Seq<i32>) -> spec_fn(int) -> int {
    |i: int|
        if s[i] != t[i] {
            1int
        } else {
            0int
        }
}

/// Number of sites at which the spins `s` and `t` differ.
pub open spec fn differing(s: Seq<i32>, t: Seq<i32>) -> int {
    sum(differs_at(s, t), s.len())
}

/// After any trials, the spins are spins still, the sites whose spin has
/// changed are at most as many as the flips accepted, and the two numbers
/// are both even or both odd.
pub proof fn lemma_changed_sites(
    s: Seq<i32>,
    lx: int,
    ly: int,
    a: Acceptance,
    picks: Seq<(int, int)>,
)
    requires
        s.len() == lx * ly,
        all_spins(s),
        valid_picks(picks, lx * ly),
    ensures
        after_trials(s, lx, ly, a, picks).0.len() == s.len(),
        all_spins(after_trials(s, lx, ly, a, picks).0),
        0 <= differing(s, after_trials(s, lx, ly, a, picks).0) <= after_trials(
            s,
            lx,
            ly,
            a,
            picks,
        ).2,
        (after_trials(s, lx, ly, a, picks).2 - differing(s, after_trials(s, lx, ly, a, picks).0))
            % 2 == 0,
    decreases picks.len(),
{
    lemma_sum_nonnegative(differs_at(s, after_trials(s, lx, ly, a, picks).0), s.len());
    if picks.len() == 0 {
        lemma_sum_bounded(differs_at(s, s), s.len(), 0);
    } else {
        lemma_changed_sites(s, lx, ly, a, picks.drop_last());
        let before = after_trials(s, lx, ly, a, picks.drop_last());
        let k = picks.last().0;
        assert(0 <= picks[picks.len() - 1].0 < lx * ly);
        if a.accepts(flip_cost(before.0, lx, ly, k), picks.last().1) {
            let t = before.0;
            let u = flipped(t, k);
            assert(after_trials(s, lx, ly, a, picks).0 == u);
            assert(after_trials(s, lx, ly, a, picks).2 == before.2 + 1);
            assert(t[k] == 1 || t[k] == -1);
            assert(s[k] == 1 || s[k] == -1);
            let change = |i: int| differs_at(s, u)(i) - differs_at(s, t)(i);
            lemma_sum_one(change, k, s.len());
            lemma_sum_add(differs_at(s, t), change, differs_at(s, u), s.len());
            assert(change(k) == 1 || change(k) == -1);
        }
    }
}

} // verus!
