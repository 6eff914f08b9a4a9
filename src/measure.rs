use vstd::prelude::*;

use crate::complex::{amplitude_norm_sqr, lemma_norm_bounds, norm_sqr, one, spec_one};
use crate::configuration::{copy_cells, views, Configuration, ConfigurationView};
use crate::universe::{combined_of, combined_probabilities, Universe};

verus! {

/// The sum of the squared norms of the amplitudes of `s`.
pub open spec fn state_weight(s: Seq<ConfigurationView>) -> int
    decreases s.len(),
{
    if s.len() == 0 {
        0
    } else {
        state_weight(s.drop_last()) + norm_sqr(s.last().0)
    }
}

/// The sum of a list of weights.
pub open spec fn weights_total(w: Seq<u128>) -> int
    decreases w.len(),
{
    if w.len() == 0 {
        0
    } else {
        weights_total(w.drop_last()) + w.last()
    }
}

/// A state weighs at most 2 to the 63rd per configuration.
pub proof fn lemma_state_weight_bounds(s: Seq<ConfigurationView>)
    ensures
        0 <= state_weight(s) <= s.len() * 0x8000_0000_0000_0000,
    decreases s.len(),
{
    if s.len() > 0 {
        lemma_state_weight_bounds(s.drop_last());
        lemma_norm_bounds(s.last().0);
    }
}

/// The weights of a prefix add up as the weight of the prefix one shorter plus
/// that of its last configuration.
proof fn lemma_prefix_weight(s: Seq<ConfigurationView>, k: int)
    requires
        0 <= k < s.len(),
    ensures
        state_weight(s.subrange(0, k + 1)) == state_weight(s.subrange(0, k)) + norm_sqr(s[k].0),
{
    assert(s.subrange(0, k + 1).drop_last() =~= s.subrange(0, k));
}

/// Relies on rand's `WeightedIndex::new` and its `Distribution::sample`, with
/// `thread_rng`: an index drawn with probability proportional to its weight.
/// The sample is the first index whose running total of weights exceeds a
/// uniform draw below the total, so an index of weight zero is never drawn.
/// `new` fails on an empty list or a zero total, and its running total must
/// not overflow: `requires` excludes these.
#[verifier::external_body]
fn weighted_index(weights: &Vec<u128>) -> (r: usize)
    requires
        weights@.len() > 0,
        0 < weights_total(weights@) <= u128::MAX,
    ensures
        r < weights@.len(),
        weights@[r as int] > 0,
{
    let distribution = rand::distributions::WeightedIndex::new(weights.iter()).unwrap();
    rand::distributions::Distribution::sample(&distribution, &mut rand::thread_rng())
}

impl Universe {
    /// The sum of the squared norms of the amplitudes of the configurations,
    /// in units of `1 / PROBABILITY_UNIT`.
    pub fn total_weight(&self) -> (r: u128)
        ensures
            r == state_weight(views(self.state@)),
    {
        let ghost s: Seq<ConfigurationView> = views(self.state@);
        let mut total: u128 = 0;
        let mut k: usize = 0;
        while k < self.state.len()
            invariant
                0 <= k <= self.state@.len(),
                s == views(self.state@),
                total == state_weight(s.subrange(0, k as int)),
            decreases self.state@.len() - k,
        {
            proof {
                lemma_prefix_weight(s, k as int);
                lemma_state_weight_bounds(s.subrange(0, k + 1));
                assert((k + 1) * 0x8000_0000_0000_0000 <= usize::MAX * 0x8000_0000_0000_0000)
                    by (nonlinear_arith)
                    requires
                        k + 1 <= usize::MAX,
                ;
                assert(views(self.state@)[k as int] == self.state@[k as int]@);
            }
            total = total + amplitude_norm_sqr(self.state[k].amplitude) as u128;
            k = k + 1;
        }
        assert(s.subrange(0, k as int) =~= s);
        total
    }

    /// Collapses the superposition to configuration `k`: it stays alone, its
    /// amplitude becomes `1 + 0i`, and the combined state is rebuilt. A state
    /// of at most one configuration is left as it is.
    pub fn measure_with(&mut self, k: usize)
        requires
            old(self).wf(),
            old(self).state@.len() <= 1 || k < old(self).state@.len(),
        ensures
            final(self).wf(),
            final(self).is_even_step == old(self).is_even_step,
            final(self).step_count == old(self).step_count,
            final(self).rules == old(self).rules,
            old(self).state@.len() <= 1 ==> *final(self) == *old(self),
            old(self).state@.len() > 1 ==> {
                &&& final(self).state@.len() == 1
                &&& final(self).state@[0]@ == (spec_one(), old(self).state@[k as int].living_cells@)
                &&& combined_of(final(self).combined_state@, views(final(self).state@))
            },
    {
        if self.state.len() <= 1 {
            return;
        }
        let cells = copy_cells(&self.state[k].living_cells);
        assert(self.state@[k as int].wf());
        let mut state: Vec<Configuration> = Vec::new();
        state.push(Configuration { amplitude: one(), living_cells: cells });
        self.state = state;
        self.combined_state = combined_probabilities(&self.state);
    }

    /// Collapses the superposition to one configuration, drawn with probability
    /// proportional to the squared norm of its amplitude (the Born rule); its
    /// amplitude becomes `1 + 0i` and the combined state is rebuilt. A state of
    /// at most one configuration is left as it is.
    pub fn measure(&mut self)
        requires
            old(self).wf(),
            old(self).state@.len() <= 1 || state_weight(views(old(self).state@)) > 0,
        ensures
            final(self).wf(),
            final(self).is_even_step == old(self).is_even_step,
            final(self).step_count == old(self).step_count,
            final(self).rules == old(self).rules,
            old(self).state@.len() <= 1 ==> *final(self) == *old(self),
            old(self).state@.len() > 1 ==> exists|k: int|
                0 <= k < old(self).state@.len() && norm_sqr(old(self).state@[k].amplitude) > 0
                    && final(self).state@.len() == 1 && final(self).state@[0]@ == (
                    spec_one(),
                    old(self).state@[k].living_cells@,
                ),
            old(self).state@.len() > 1 ==> combined_of(
                final(self).combined_state@,
                views(final(self).state@),
            ),
    {
        if self.state.len() <= 1 {
            return;
        }
        let ghost s: Seq<ConfigurationView> = views(self.state@);
        let mut weights: Vec<u128> = Vec::new();
        let mut i: usize = 0;
        while i < self.state.len()
            invariant
                0 <= i <= self.state@.len(),
                s == views(self.state@),
                weights@.len() == i,
                forall|j: int| 0 <= j < i ==> #[trigger] weights@[j] == norm_sqr(s[j].0),
                weights_total(weights@) == state_weight(s.subrange(0, i as int)),
            decreases self.state@.len() - i,
        {
            proof {
                lemma_prefix_weight(s, i as int);
                assert(views(self.state@)[i as int] == self.state@[i as int]@);
                lemma_norm_bounds(s[i as int].0);
            }
            let ghost before: Seq<u128> = weights@;
            weights.push(amplitude_norm_sqr(self.state[i].amplitude) as u128);
            assert(weights@.drop_last() =~= before);
            i = i + 1;
        }
        proof {
            assert(s.subrange(0, i as int) =~= s);
            lemma_state_weight_bounds(s);
            assert(s.len() * 0x8000_0000_0000_0000 <= usize::MAX * 0x8000_0000_0000_0000)
                by (nonlinear_arith)
                requires
                    s.len() <= usize::MAX,
            ;
        }
        let k: usize = weighted_index(&weights);
        proof {
            assert(s[k as int] == self.state@[k as int]@);
        }
        self.measure_with(k);
    }
}

} // verus!
