use vstd::prelude::*;

use crate::complex::{amplitude_norm_sqr, lemma_norm_bounds, norm_sqr, one, Amplitude, CELL_EPSILON};
use crate::configuration::{views, Configuration, ConfigurationView};
use crate::configuration::step_configuration;
use crate::coordinates::Coordinates;
use crate::rules::{get_test_rules, test_rule, Rules};

verus! {

/// A superposition of configurations, with the per-cell probabilities derived
/// from it and the rules that advance it.
pub struct Universe {
    /// The configurations of the superposition, in order.
    pub state: Vec<Configuration>,
    /// For each listed cell, once, the probability that it is alive, in units of
    /// `1 / PROBABILITY_UNIT`.
    pub combined_state: Vec<(Coordinates, i128)>,
    /// Whether the next step partitions the lattice into blocks that start on
    /// even coordinates.
    pub is_even_step: bool,
    /// The number of steps taken.
    pub step_count: u64,
    /// The local rule that each step applies to every block.
    pub rules: Rules,
}

/// The cells that a combined state lists.
pub open spec fn keys(comb: Seq<(Coordinates, i128)>) -> Seq<Coordinates> {
    comb.map_values(|e: (Coordinates, i128)| e.0)
}

/// `c` is alive in some configuration of `s`.
pub open spec fn live_in(s: Seq<ConfigurationView>, c: Coordinates) -> bool
    decreases s.len(),
{
    if s.len() == 0 {
        false
    } else {
        live_in(s.drop_last(), c) || s.last().1.contains(c)
    }
}

/// The probability that `c` is alive: the sum of the squared norms of the
/// amplitudes of the configurations of `s` in which it is alive.
pub open spec fn cell_probability(s: Seq<ConfigurationView>, c: Coordinates) -> int
    decreases s.len(),
{
    if s.len() == 0 {
        0
    } else {
        cell_probability(s.drop_last(), c) + if s.last().1.contains(c) {
            norm_sqr(s.last().0)
        } else {
            0
        }
    }
}

/// `comb` lists each cell that is alive in some configuration of `s`, once,
/// with its probability, and no other cell.
pub open spec fn combined_exact(comb: Seq<(Coordinates, i128)>, s: Seq<ConfigurationView>) -> bool {
    &&& keys(comb).no_duplicates()
    &&& forall|i: int|
        0 <= i < comb.len() ==> live_in(s, (#[trigger] comb[i]).0) && comb[i].1 == cell_probability(
            s,
            comb[i].0,
        )
    &&& forall|c: Coordinates| live_in(s, c) ==> #[trigger] keys(comb).contains(c)
}

/// The entries of `comb` above `CELL_EPSILON`, in order.
pub open spec fn keep_above_epsilon(comb: Seq<(Coordinates, i128)>) -> Seq<(Coordinates, i128)>
    decreases comb.len(),
{
    if comb.len() == 0 {
        seq![]
    } else {
        let p = keep_above_epsilon(comb.drop_last());
        if comb.last().1 > CELL_EPSILON {
            p.push(comb.last())
        } else {
            p
        }
    }
}

/// Each entry of `comb` is a distinct cell with its probability under `s`.
pub open spec fn entries_exact(comb: Seq<(Coordinates, i128)>, s: Seq<ConfigurationView>) -> bool {
    &&& keys(comb).no_duplicates()
    &&& forall|i: int| 0 <= i < comb.len() ==> (#[trigger] comb[i]).1 == cell_probability(s, comb[i].0)
}

/// `comb` lists, once, each cell whose probability under `s` exceeds
/// `CELL_EPSILON`, with that probability, and no other cell: every other cell
/// has probability at most `CELL_EPSILON`.
pub open spec fn combined_of(comb: Seq<(Coordinates, i128)>, s: Seq<ConfigurationView>) -> bool {
    &&& entries_exact(comb, s)
    &&& forall|i: int| 0 <= i < comb.len() ==> (#[trigger] comb[i]).1 > CELL_EPSILON
    &&& forall|c: Coordinates| #[trigger] cell_probability(s, c) > CELL_EPSILON ==> keys(comb).contains(c)
}

/// One step of every configuration, the results in order.
pub open spec fn step_state(s: Seq<ConfigurationView>, rules: Rules, is_even_step: bool) -> Seq<ConfigurationView>
    decreases s.len(),
{
    if s.len() == 0 {
        seq![]
    } else {
        step_state(s.drop_last(), rules, is_even_step) + step_configuration(s.last(), rules, is_even_step)
    }
}

/// A cell weighs at most 2 to the 63rd per configuration that holds it.
pub proof fn lemma_probability_bounds(s: Seq<ConfigurationView>, c: Coordinates)
    ensures
        0 <= cell_probability(s, c) <= s.len() * 0x8000_0000_0000_0000,
    decreases s.len(),
{
    if s.len() > 0 {
        lemma_probability_bounds(s.drop_last(), c);
        lemma_norm_bounds(s.last().0);
    }
}

/// A combined state as every rebuild leaves it agrees with the probabilities
/// within `CELL_EPSILON`: a listed cell has exactly its probability, above
/// `CELL_EPSILON`, and an unlisted cell has probability between zero and
/// `CELL_EPSILON`.
pub proof fn lemma_combined_within_epsilon(comb: Seq<(Coordinates, i128)>, s: Seq<ConfigurationView>)
    requires
        combined_of(comb, s),
    ensures
        forall|i: int|
            0 <= i < comb.len() ==> (#[trigger] comb[i]).1 == cell_probability(s, comb[i].0)
                && comb[i].1 > CELL_EPSILON,
        forall|c: Coordinates|
            !keys(comb).contains(c) ==> 0 <= #[trigger] cell_probability(s, c) <= CELL_EPSILON,
{
    assert forall|c: Coordinates| !keys(comb).contains(c) implies 0 <= #[trigger] cell_probability(
        s,
        c,
    ) <= CELL_EPSILON by {
        lemma_probability_bounds(s, c);
    }
}

/// Where `c` is in none of the configurations of `s`, its probability is zero.
pub proof fn lemma_probability_of_dead_cell(s: Seq<ConfigurationView>, c: Coordinates)
    requires
        !live_in(s, c),
    ensures
        cell_probability(s, c) == 0,
    decreases s.len(),
{
    if s.len() > 0 {
        lemma_probability_of_dead_cell(s.drop_last(), c);
    }
}

fn find_entry(comb: &Vec<(Coordinates, i128)>, c: Coordinates) -> (r: Option<usize>)
    ensures
        r matches Some(i) ==> i < comb@.len() && comb@[i as int].0 == c,
        r is None ==> !keys(comb@).contains(c),
{
    let mut i: usize = 0;
    while i < comb.len()
        invariant
            0 <= i <= comb@.len(),
            forall|k: int| 0 <= k < i ==> comb@[k].0 != c,
        decreases comb@.len() - i,
    {
        if comb[i].0 == c {
            return Some(i);
        }
        i = i + 1;
    }
    assert forall|k: int| 0 <= k < comb@.len() implies keys(comb@)[k] != c by {
        assert(keys(comb@)[k] == comb@[k].0);
    }
    None
}

/// The probabilities of the cells of `s`: for each cell alive in some
/// configuration, the sum of the squared norms of the configurations that hold
/// it.
fn exact_probabilities(state: &Vec<Configuration>) -> (r: Vec<(Coordinates, i128)>)
    requires
        forall|k: int| 0 <= k < state@.len() ==> (#[trigger] state@[k]).wf(),
    ensures
        combined_exact(r@, views(state@)),
{
    let ghost s: Seq<ConfigurationView> = views(state@);
    let mut comb: Vec<(Coordinates, i128)> = Vec::new();
    let mut k: usize = 0;
    while k < state.len()
        invariant
            0 <= k <= state@.len(),
            s == views(state@),
            forall|m: int| 0 <= m < state@.len() ==> (#[trigger] state@[m]).wf(),
            combined_exact(comb@, s.subrange(0, k as int)),
        decreases state@.len() - k,
    {
        let amplitude: Amplitude = state[k].amplitude;
        let weight: u64 = amplitude_norm_sqr(amplitude);
        let cells: &Vec<Coordinates> = &state[k].living_cells;
        let ghost base: Seq<ConfigurationView> = s.subrange(0, k as int);
        assert(state@[k as int].wf());
        let mut i: usize = 0;
        proof {
            let t = base.push((amplitude, cells@.subrange(0, 0)));
            assert(t.drop_last() =~= base);
            assert forall|c: Coordinates| live_in(t, c) == live_in(base, c) && cell_probability(t, c)
                == cell_probability(base, c) by {
            }
        }
        while i < cells.len()
            invariant
                0 <= k < state.len(),
                0 <= i <= cells@.len(),
                *cells == state@[k as int].living_cells,
                cells@.no_duplicates(),
                weight == norm_sqr(amplitude),
                amplitude == state@[k as int].amplitude,
                base == s.subrange(0, k as int),
                s == views(state@),
                combined_exact(comb@, base.push((amplitude, cells@.subrange(0, i as int)))),
            decreases cells@.len() - i,
        {
            let c: Coordinates = cells[i];
            let ghost before: Seq<ConfigurationView> = base.push((amplitude, cells@.subrange(0, i as int)));
            let ghost after: Seq<ConfigurationView> = base.push(
                (amplitude, cells@.subrange(0, i + 1)),
            );
            let ghost old_comb: Seq<(Coordinates, i128)> = comb@;
            proof {
                assert(before.drop_last() =~= base);
                assert(after.drop_last() =~= base);
                assert(cells@.subrange(0, i + 1) =~= cells@.subrange(0, i as int).push(c));
                assert(!cells@.subrange(0, i as int).contains(c)) by {
                    if cells@.subrange(0, i as int).contains(c) {
                        let m = choose|m: int| 0 <= m < i && cells@.subrange(0, i as int)[m] == c;
                        assert(cells@[m] == cells@[i as int]);
                    }
                }
                assert forall|q: Coordinates| q != c implies live_in(after, q) == live_in(before, q)
                    && cell_probability(after, q) == cell_probability(before, q) by {
                    assert(cells@.subrange(0, i + 1).contains(q) == cells@.subrange(
                        0,
                        i as int,
                    ).contains(q));
                }
                assert(cells@.subrange(0, i + 1)[i as int] == c);
                assert(after.last().1.contains(c));
                assert(!before.last().1.contains(c));
                assert(live_in(after, c));
                assert(cell_probability(after, c) == cell_probability(before, c) + weight);
                lemma_probability_bounds(after, c);
                assert(after.len() == k + 1);
                assert(after.len() <= usize::MAX);
                assert(after.len() * 0x8000_0000_0000_0000 <= usize::MAX * 0x8000_0000_0000_0000)
                    by (nonlinear_arith)
                    requires
                        after.len() <= usize::MAX,
                ;
            }
            match find_entry(&comb, c) {
                Some(idx) => {
                    proof {
                        assert(keys(old_comb)[idx as int] == c);
                        assert(comb@[idx as int].1 == cell_probability(before, c));
                    }
                    let value: i128 = comb[idx].1 + weight as i128;
                    comb.set(idx, (c, value));
                    proof {
                        assert(keys(comb@) =~= keys(old_comb));
                        assert forall|m: int| 0 <= m < comb@.len() implies live_in(
                            after,
                            (#[trigger] comb@[m]).0,
                        ) && comb@[m].1 == cell_probability(after, comb@[m].0) by {
                            if m != idx {
                                assert(keys(old_comb)[m] != keys(old_comb)[idx as int]);
                                assert(old_comb[m] == comb@[m]);
                            }
                        }
                        assert forall|q: Coordinates| live_in(after, q) implies #[trigger] keys(
                            comb@,
                        ).contains(q) by {
                            if q == c {
                                assert(keys(comb@)[idx as int] == c);
                            } else {
                                assert(live_in(before, q));
                            }
                        }
                    }
                },
                None => {
                    proof {
                        lemma_probability_of_dead_cell(before, c);
                    }
                    comb.push((c, weight as i128));
                    proof {
                        assert(keys(comb@) =~= keys(old_comb).push(c));
                        assert forall|m: int| 0 <= m < comb@.len() implies live_in(
                            after,
                            (#[trigger] comb@[m]).0,
                        ) && comb@[m].1 == cell_probability(after, comb@[m].0) by {
                            if m < old_comb.len() {
                                assert(old_comb[m] == comb@[m]);
                                assert(keys(old_comb)[m] == old_comb[m].0);
                                assert(old_comb[m].0 != c);
                            }
                        }
                        assert forall|q: Coordinates| live_in(after, q) implies #[trigger] keys(
                            comb@,
                        ).contains(q) by {
                            if q == c {
                                assert(keys(comb@)[old_comb.len() as int] == c);
                            } else {
                                assert(live_in(before, q));
                                assert(keys(old_comb).contains(q));
                                let m = choose|m: int| 0 <= m < old_comb.len() && keys(old_comb)[m] == q;
                                assert(keys(comb@)[m] == q);
                            }
                        }
                    }
                },
            }
            i = i + 1;
        }
        proof {
            assert(cells@.subrange(0, i as int) =~= cells@);
            assert(s.subrange(0, k + 1) =~= base.push((amplitude, cells@)));
        }
        k = k + 1;
    }
    assert(s.subrange(0, k as int) =~= s);
    comb
}

/// The entries kept are entries of `comb`, each above `CELL_EPSILON`; every
/// such entry is kept; distinct cells stay distinct.
pub proof fn lemma_keep_above_epsilon(comb: Seq<(Coordinates, i128)>)
    ensures
        forall|x: int|
            0 <= x < keep_above_epsilon(comb).len() ==> exists|k: int|
                0 <= k < comb.len() && comb[k] == #[trigger] keep_above_epsilon(comb)[x],
        forall|k: int|
            0 <= k < comb.len() && comb[k].1 > CELL_EPSILON ==> keep_above_epsilon(comb).contains(
                #[trigger] comb[k],
            ),
        forall|x: int|
            0 <= x < keep_above_epsilon(comb).len() ==> (#[trigger] keep_above_epsilon(comb)[x]).1
                > CELL_EPSILON,
        keys(comb).no_duplicates() ==> keys(keep_above_epsilon(comb)).no_duplicates(),
    decreases comb.len(),
{
    if comb.len() > 0 {
        let prev = comb.drop_last();
        lemma_keep_above_epsilon(prev);
        let r = keep_above_epsilon(comb);
        let rp = keep_above_epsilon(prev);
        if keys(comb).no_duplicates() {
            assert(keys(prev) =~= keys(comb).drop_last());
            if comb.last().1 > CELL_EPSILON {
                assert forall|x: int, y: int|
                    0 <= x < r.len() && 0 <= y < r.len() && x != y implies keys(r)[x] != keys(r)[y] by {
                    if x < rp.len() && y < rp.len() {
                        assert(keys(rp)[x] != keys(rp)[y]);
                    } else if x < rp.len() {
                        let k = choose|k: int| 0 <= k < prev.len() && prev[k] == #[trigger] rp[x];
                        assert(keys(comb)[k] != keys(comb)[comb.len() - 1]);
                    } else {
                        let k = choose|k: int| 0 <= k < prev.len() && prev[k] == #[trigger] rp[y];
                        assert(keys(comb)[k] != keys(comb)[comb.len() - 1]);
                    }
                }
            } else {
                assert(keys(r) == keys(rp));
            }
        }
        assert forall|x: int| 0 <= x < r.len() implies exists|k: int|
            0 <= k < comb.len() && comb[k] == #[trigger] r[x] by {
            if x < keep_above_epsilon(prev).len() {
                let k = choose|k: int| 0 <= k < prev.len() && prev[k] == keep_above_epsilon(prev)[x];
                assert(comb[k] == r[x]);
            } else {
                assert(comb[comb.len() - 1] == r[x]);
            }
        }
        assert forall|k: int| 0 <= k < comb.len() && comb[k].1 > CELL_EPSILON implies r.contains(
            #[trigger] comb[k],
        ) by {
            if k < comb.len() - 1 {
                assert(prev[k] == comb[k]);
                assert(keep_above_epsilon(prev).contains(prev[k]));
                let y = choose|y: int| 0 <= y < keep_above_epsilon(prev).len() && keep_above_epsilon(prev)[y] == prev[k];
                assert(r[y] == comb[k]);
            } else {
                assert(r[r.len() - 1] == comb[k]);
            }
        }
    }
}


/// The entries of `comb` above `CELL_EPSILON`, in order.
pub(crate) fn keep_entries_above_epsilon(comb: &Vec<(Coordinates, i128)>) -> (r: Vec<(Coordinates, i128)>)
    ensures
        r@ == keep_above_epsilon(comb@),
{
    let mut r: Vec<(Coordinates, i128)> = Vec::new();
    let mut e: usize = 0;
    while e < comb.len()
        invariant
            0 <= e <= comb@.len(),
            r@ == keep_above_epsilon(comb@.subrange(0, e as int)),
        decreases comb@.len() - e,
    {
        proof {
            assert(comb@.subrange(0, e + 1).drop_last() =~= comb@.subrange(0, e as int));
        }
        if comb[e].1 > CELL_EPSILON {
            r.push(comb[e]);
        }
        e = e + 1;
    }
    assert(comb@.subrange(0, e as int) =~= comb@);
    r
}

/// The combined state of `state`: each cell whose probability exceeds
/// `CELL_EPSILON`, with the sum of the squared norms of the configurations that
/// hold it.
pub(crate) fn combined_probabilities(state: &Vec<Configuration>) -> (r: Vec<(Coordinates, i128)>)
    requires
        forall|k: int| 0 <= k < state@.len() ==> (#[trigger] state@[k]).wf(),
    ensures
        combined_of(r@, views(state@)),
{
    let exact: Vec<(Coordinates, i128)> = exact_probabilities(state);
    let r = keep_entries_above_epsilon(&exact);
    proof {
        let s = views(state@);
        lemma_keep_above_epsilon(exact@);
        assert forall|i: int| 0 <= i < r@.len() implies (#[trigger] r@[i]).1 == cell_probability(
            s,
            r@[i].0,
        ) by {
            let k = choose|k: int| 0 <= k < exact@.len() && exact@[k] == #[trigger] r@[i];
        }
        assert forall|c: Coordinates| #[trigger] cell_probability(s, c) > CELL_EPSILON implies keys(
            r@,
        ).contains(c) by {
            if !live_in(s, c) {
                lemma_probability_of_dead_cell(s, c);
            }
            assert(keys(exact@).contains(c));
            let k = choose|k: int| 0 <= k < exact@.len() && keys(exact@)[k] == c;
            assert(r@.contains(exact@[k]));
            let y = choose|y: int| 0 <= y < r@.len() && r@[y] == exact@[k];
            assert(keys(r@)[y] == c);
        }
    }
    r
}

impl Universe {
    /// Every configuration lists each alive cell once, and the combined state
    /// lists each cell once.
    pub open spec fn wf(&self) -> bool {
        &&& forall|k: int| 0 <= k < self.state@.len() ==> (#[trigger] self.state@[k]).wf()
        &&& keys(self.combined_state@).no_duplicates()
    }

    /// The vacuum: one configuration with amplitude `1 + 0i` and no alive
    /// cell, on an even step, under the built-in rules.
    pub fn new() -> (u: Universe)
        ensures
            u.wf(),
            u.state@.len() == 1,
            u.state@[0].amplitude == crate::complex::spec_one(),
            u.state@[0].living_cells@.len() == 0,
            u.combined_state@.len() == 0,
            u.is_even_step,
            u.step_count == 0,
            forall|i: int, j: int| 0 <= i < 16 && 0 <= j < 16 ==> (#[trigger] u.rules@[i]@[j]) == test_rule(i, j),
    {
        let mut state: Vec<Configuration> = Vec::new();
        state.push(Configuration { amplitude: one(), living_cells: Vec::new() });
        let u = Universe {
            state,
            combined_state: Vec::new(),
            is_even_step: true,
            step_count: 0,
            rules: get_test_rules(),
        };
        assert(keys(u.combined_state@) =~= Seq::<Coordinates>::empty());
        u
    }

    /// A universe in `state`, on an even step, under the built-in rules, with
    /// its combined state computed.
    pub fn from_state(state: Vec<Configuration>) -> (u: Universe)
        requires
            forall|k: int| 0 <= k < state@.len() ==> (#[trigger] state@[k]).wf(),
        ensures
            u.wf(),
            u.state@ == state@,
            combined_of(u.combined_state@, views(u.state@)),
            u.is_even_step,
            u.step_count == 0,
            forall|i: int, j: int| 0 <= i < 16 && 0 <= j < 16 ==> (#[trigger] u.rules@[i]@[j]) == test_rule(i, j),
    {
        let combined_state = combined_probabilities(&state);
        Universe { state, combined_state, is_even_step: true, step_count: 0, rules: get_test_rules() }
    }

    /// Rebuilds the combined state from the configurations: each cell alive in
    /// some configuration, with the sum of the squared norms of the amplitudes
    /// of the configurations that hold it; entries at or below `CELL_EPSILON`
    /// are left out.
    pub fn compute_combined_state(&mut self)
        requires
            old(self).wf(),
        ensures
            final(self).wf(),
            final(self).state == old(self).state,
            final(self).is_even_step == old(self).is_even_step,
            final(self).step_count == old(self).step_count,
            final(self).rules == old(self).rules,
            combined_of(final(self).combined_state@, views(final(self).state@)),
    {
        self.combined_state = combined_probabilities(&self.state);
    }

    /// Advances every configuration by one tick, replaces the state by all the
    /// results in order, rebuilds the combined state, and moves to the other
    /// block partition.
    pub fn step(&mut self)
        requires
            old(self).wf(),
            old(self).step_count < u64::MAX,
        ensures
            final(self).wf(),
            views(final(self).state@) == step_state(
                views(old(self).state@),
                old(self).rules,
                old(self).is_even_step,
            ),
            combined_of(final(self).combined_state@, views(final(self).state@)),
            final(self).is_even_step == !old(self).is_even_step,
            final(self).step_count == old(self).step_count + 1,
            final(self).rules == old(self).rules,
    {
        let ghost s: Seq<ConfigurationView> = views(self.state@);
        let mut new_state: Vec<Configuration> = Vec::new();
        let mut k: usize = 0;
        while k < self.state.len()
            invariant
                0 <= k <= self.state@.len(),
                s == views(self.state@),
                views(new_state@) == step_state(s.subrange(0, k as int), self.rules, self.is_even_step),
                forall|m: int| 0 <= m < new_state@.len() ==> (#[trigger] new_state@[m]).wf(),
            decreases self.state@.len() - k,
        {
            let mut results: Vec<Configuration> = self.state[k].step(&self.rules, self.is_even_step);
            let ghost before: Seq<Configuration> = new_state@;
            let ghost added: Seq<Configuration> = results@;
            new_state.append(&mut results);
            proof {
                assert(views(new_state@) =~= views(before) + views(added));
                let t = s.subrange(0, k + 1);
                assert(t.drop_last() =~= s.subrange(0, k as int));
                assert(t.last() == self.state@[k as int]@);
                assert forall|m: int| 0 <= m < new_state@.len() implies (#[trigger] new_state@[m]).wf() by {
                    if m >= before.len() {
                        assert(new_state@[m] == added[m - before.len()]);
                    } else {
                        assert(new_state@[m] == before[m]);
                    }
                }
            }
            k = k + 1;
        }
        assert(s.subrange(0, k as int) =~= s);
        self.state = new_state;
        self.combined_state = combined_probabilities(&self.state);
        self.is_even_step = !self.is_even_step;
        self.step_count = self.step_count + 1;
    }
}

} // verus!
