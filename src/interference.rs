use vstd::prelude::*;

use crate::complex::{amplitude_add, amplitude_is_significant, amplitude_norm_sqr, zero};
use crate::complex::{is_significant, is_zero, lemma_norm_bounds, lemma_norm_of_zero, norm_sqr, spec_amplitude_add};
use crate::complex::{Amplitude, ComplexDef, CELL_EPSILON, NEGLIGIBLE_WEIGHT};
use crate::complex::lemma_negligible_weight;
use crate::configuration::{contains_cell, copy_cells, views, Configuration, ConfigurationView};
use crate::coordinates::Coordinates;
use crate::fingerprint::{fingerprint, fingerprint_key, fingerprint_key_of, fingerprint_of};
use crate::fingerprint::lemma_fingerprint_of_same_set;
use std::collections::HashMap;
use crate::universe::{cell_probability, entries_exact, keep_above_epsilon, keep_entries_above_epsilon, keys};
use crate::universe::{lemma_keep_above_epsilon, lemma_probability_bounds, Universe};

verus! {

/// The two lists name the same set of cells.
pub open spec fn same_cells(a: Seq<Coordinates>, b: Seq<Coordinates>) -> bool {
    a.to_set() == b.to_set()
}

/// The first of the configurations `0..m` of `s` whose alive cells are those of
/// `cells`, or `m` where there is none.
pub open spec fn first_with_cells(s: Seq<ConfigurationView>, cells: Seq<Coordinates>, m: int) -> int
    decreases m,
{
    if m <= 0 {
        0
    } else {
        let p = first_with_cells(s, cells, m - 1);
        if p < m - 1 {
            p
        } else if same_cells(s[m - 1].1, cells) {
            m - 1
        } else {
            m
        }
    }
}

/// `m` after the amplitude of configuration `i` was added into that of
/// configuration `j` and set to zero.
pub open spec fn merge_into(m: Seq<ConfigurationView>, j: int, i: int) -> Seq<ConfigurationView> {
    m.update(j, (spec_amplitude_add(m[j].0, m[i].0), m[j].1)).update(
        i,
        (ComplexDef { re: 0, im: 0 }, m[i].1),
    )
}

/// The state after configurations `0..n` of `s` were scanned: each one whose
/// cells an earlier one already has gave its amplitude to the first such one.
pub open spec fn merged(s: Seq<ConfigurationView>, n: int) -> Seq<ConfigurationView>
    decreases n,
{
    if n <= 0 {
        s
    } else {
        let m = merged(s, n - 1);
        let j = first_with_cells(s, s[n - 1].1, n - 1);
        if j == n - 1 {
            m
        } else {
            merge_into(m, j, n - 1)
        }
    }
}

/// What merging configuration `i` into configuration `j` adds to the
/// probability of each cell of theirs: `|a_j + a_i|² - |a_j|² - |a_i|²`.
pub open spec fn merge_delta(m: Seq<ConfigurationView>, j: int, i: int) -> int {
    norm_sqr(spec_amplitude_add(m[j].0, m[i].0)) - norm_sqr(m[j].0) - norm_sqr(m[i].0)
}

/// The value closest to `v` that an `i128` holds.
pub open spec fn clamp_i128(v: int) -> i128 {
    if v < i128::MIN {
        i128::MIN
    } else if v > i128::MAX {
        i128::MAX
    } else {
        v as i128
    }
}

/// `comb` with `delta` added to the entry of each cell of `cells`.
pub open spec fn shift_cells(comb: Seq<(Coordinates, i128)>, cells: Seq<Coordinates>, delta: int) -> Seq<(Coordinates, i128)> {
    comb.map_values(
        |e: (Coordinates, i128)|
            if cells.contains(e.0) {
                (e.0, clamp_i128(e.1 + delta))
            } else {
                e
            },
    )
}

/// The combined state after configurations `0..n` of `s` were scanned: each
/// merge added its delta to the entries of the cells of the merged
/// configuration.
pub open spec fn merged_combined(s: Seq<ConfigurationView>, comb: Seq<(Coordinates, i128)>, n: int) -> Seq<(Coordinates, i128)>
    decreases n,
{
    if n <= 0 {
        comb
    } else {
        let prev = merged_combined(s, comb, n - 1);
        let j = first_with_cells(s, s[n - 1].1, n - 1);
        if j == n - 1 {
            prev
        } else {
            shift_cells(prev, s[n - 1].1, merge_delta(merged(s, n - 1), j, n - 1))
        }
    }
}

/// The configurations of `s` whose amplitude is significant, in order.
pub open spec fn keep_significant(s: Seq<ConfigurationView>) -> Seq<ConfigurationView>
    decreases s.len(),
{
    if s.len() == 0 {
        seq![]
    } else {
        let p = keep_significant(s.drop_last());
        if is_significant(s.last().0) {
            p.push(s.last())
        } else {
            p
        }
    }
}

/// The state that interference leaves of `s`: merged, then with the
/// configurations of negligible amplitude removed.
pub open spec fn interfered_state(s: Seq<ConfigurationView>) -> Seq<ConfigurationView> {
    keep_significant(merged(s, s.len() as int))
}

/// The combined state that interference leaves of `comb`: the merges' deltas
/// added, then the entries at or below `CELL_EPSILON` removed.
pub open spec fn interfered_combined(s: Seq<ConfigurationView>, comb: Seq<(Coordinates, i128)>) -> Seq<(Coordinates, i128)> {
    keep_above_epsilon(merged_combined(s, comb, s.len() as int))
}

/// The representatives listed under key `k`.
pub open spec fn bucket_of(m: Map<u64, Vec<usize>>, k: u64) -> Seq<usize> {
    if m.contains_key(k) {
        m[k]@
    } else {
        seq![]
    }
}

/// The key under which the representative of cells `cells` is listed.
pub open spec fn cells_key(cells: Seq<Coordinates>) -> u64 {
    fingerprint_key_of(fingerprint_of(cells))
}

/// Under the key of configuration `j` a representative with its cells is
/// listed.
pub open spec fn represented(s: Seq<ConfigurationView>, m: Map<u64, Vec<usize>>, j: int) -> bool {
    exists|t: int|
        0 <= t < bucket_of(m, cells_key(s[j].1)).len() && same_cells(
            s[bucket_of(m, cells_key(s[j].1))[t] as int].1,
            #[trigger] s[j].1,
        )
}

/// `first_with_cells` is the least index below `m` with the given cells.
pub proof fn lemma_first_with_cells(s: Seq<ConfigurationView>, cells: Seq<Coordinates>, m: int)
    requires
        0 <= m <= s.len(),
    ensures
        0 <= first_with_cells(s, cells, m) <= m,
        first_with_cells(s, cells, m) < m ==> same_cells(s[first_with_cells(s, cells, m)].1, cells),
        forall|j: int| 0 <= j < first_with_cells(s, cells, m) ==> !same_cells(#[trigger] s[j].1, cells),
    decreases m,
{
    if m > 0 {
        lemma_first_with_cells(s, cells, m - 1);
    }
}

/// The configuration that another merges into is the first with its cells.
proof fn lemma_first_is_first(s: Seq<ConfigurationView>, i: int)
    requires
        0 <= i < s.len(),
    ensures
        first_with_cells(s, s[first_with_cells(s, s[i].1, i)].1, first_with_cells(s, s[i].1, i))
            == first_with_cells(s, s[i].1, i) || first_with_cells(s, s[i].1, i) == i,
{
    let j = first_with_cells(s, s[i].1, i);
    lemma_first_with_cells(s, s[i].1, i);
    if j < i {
        lemma_first_with_cells(s, s[j].1, j);
        let f = first_with_cells(s, s[j].1, j);
        if f < j {
            assert(same_cells(s[f].1, s[j].1));
            assert(same_cells(s[f].1, s[i].1));
        }
    }
}

/// Merging keeps the length and the cells of every configuration, and leaves
/// zero in each scanned configuration that is not the first with its cells.
pub proof fn lemma_merged_shape(s: Seq<ConfigurationView>, n: int)
    requires
        0 <= n <= s.len(),
    ensures
        merged(s, n).len() == s.len(),
        forall|k: int| 0 <= k < s.len() ==> (#[trigger] merged(s, n)[k]).1 == s[k].1,
        forall|k: int|
            0 <= k < n && first_with_cells(s, s[k].1, k) != k ==> is_zero(
                (#[trigger] merged(s, n)[k]).0,
            ),
        forall|k: int| n <= k < s.len() ==> (#[trigger] merged(s, n)[k]) == s[k],
    decreases n,
{
    if n > 0 {
        let i = n - 1;
        lemma_merged_shape(s, i);
        lemma_first_with_cells(s, s[i].1, i);
        lemma_first_is_first(s, i);
        let j = first_with_cells(s, s[i].1, i);
        if j != i {
            assert forall|k: int|
                0 <= k < n && first_with_cells(s, s[k].1, k) != k implies is_zero(
                (#[trigger] merged(s, n)[k]).0,
            ) by {
                if k != i {
                    assert(k != j);
                }
            }
        }
    }
}

/// Setting the amplitude of configuration `x` changes the probability of each
/// of its cells by the difference of the squared norms, and of no other cell.
proof fn lemma_probability_update(m: Seq<ConfigurationView>, x: int, a: Amplitude, q: Coordinates)
    requires
        0 <= x < m.len(),
    ensures
        cell_probability(m.update(x, (a, m[x].1)), q) == cell_probability(m, q) + if m[x].1.contains(q) {
            norm_sqr(a) - norm_sqr(m[x].0)
        } else {
            0
        },
    decreases m.len(),
{
    let u = m.update(x, (a, m[x].1));
    if x == m.len() - 1 {
        assert(u.drop_last() =~= m.drop_last());
    } else {
        lemma_probability_update(m.drop_last(), x, a, q);
        assert(u.drop_last() =~= m.drop_last().update(x, (a, m[x].1)));
    }
}

/// Merging configuration `i` into configuration `j`, which has the same cells,
/// changes the probability of each of their cells by `merge_delta`.
proof fn lemma_probability_merge(m: Seq<ConfigurationView>, j: int, i: int, q: Coordinates)
    requires
        0 <= j < m.len(),
        0 <= i < m.len(),
        j != i,
        same_cells(m[j].1, m[i].1),
    ensures
        cell_probability(merge_into(m, j, i), q) == cell_probability(m, q) + if m[i].1.contains(q) {
            merge_delta(m, j, i)
        } else {
            0
        },
{
    let sum = spec_amplitude_add(m[j].0, m[i].0);
    let m1 = m.update(j, (sum, m[j].1));
    lemma_probability_update(m, j, sum, q);
    lemma_probability_update(m1, i, ComplexDef { re: 0, im: 0 }, q);
    lemma_norm_of_zero();
    assert(m1[i] == m[i]);
    assert(m[j].1.contains(q) == m[i].1.contains(q)) by {
        assert(m[j].1.to_set().contains(q) == m[i].1.to_set().contains(q));
    }
}

/// While interference scans, each entry of the combined state it updates stays
/// the probability of its cell under the configurations merged so far, when it
/// started as the exact probability.
proof fn lemma_merged_combined_exact(s: Seq<ConfigurationView>, comb: Seq<(Coordinates, i128)>, n: int)
    requires
        0 <= n <= s.len(),
        s.len() <= usize::MAX,
        entries_exact(comb, s),
    ensures
        merged_combined(s, comb, n).len() == comb.len(),
        forall|x: int|
            0 <= x < comb.len() ==> (#[trigger] merged_combined(s, comb, n)[x]).0 == comb[x].0
                && merged_combined(s, comb, n)[x].1 == cell_probability(merged(s, n), comb[x].0),
    decreases n,
{
    if n > 0 {
        let i = n - 1;
        lemma_merged_combined_exact(s, comb, i);
        lemma_merged_shape(s, i);
        lemma_first_with_cells(s, s[i].1, i);
        let j = first_with_cells(s, s[i].1, i);
        let m = merged(s, i);
        let prev = merged_combined(s, comb, i);
        if j != i {
            let d = merge_delta(m, j, i);
            assert forall|x: int| 0 <= x < comb.len() implies (#[trigger] merged_combined(
                s,
                comb,
                n,
            )[x]).0 == comb[x].0 && merged_combined(s, comb, n)[x].1 == cell_probability(
                merged(s, n),
                comb[x].0,
            ) by {
                let q = comb[x].0;
                assert(same_cells(m[j].1, m[i].1));
                lemma_probability_merge(m, j, i, q);
                lemma_probability_bounds(merged(s, n), q);
                assert(merged(s, n).len() == s.len());
                assert(s.len() * 0x8000_0000_0000_0000 <= usize::MAX * 0x8000_0000_0000_0000)
                    by (nonlinear_arith)
                    requires
                        s.len() <= usize::MAX,
                ;
            }
        }
    } else {
        assert forall|x: int| 0 <= x < comb.len() implies (#[trigger] merged_combined(s, comb, n)[x]).0
            == comb[x].0 && merged_combined(s, comb, n)[x].1 == cell_probability(
            merged(s, n),
            comb[x].0,
        ) by {
            assert(comb[x].1 == cell_probability(s, comb[x].0));
        }
    }
}

/// Removing the configurations of negligible amplitude lowers the probability
/// of a cell by at most `NEGLIGIBLE_WEIGHT` for each one removed.
proof fn lemma_keep_significant_probability(m: Seq<ConfigurationView>, c: Coordinates)
    ensures
        0 <= cell_probability(m, c) - cell_probability(keep_significant(m), c) <= m.len() * NEGLIGIBLE_WEIGHT,
    decreases m.len(),
{
    if m.len() > 0 {
        let prev = m.drop_last();
        lemma_keep_significant_probability(prev, c);
        let k = keep_significant(prev);
        lemma_norm_bounds(m.last().0);
        if is_significant(m.last().0) {
            assert(k.push(m.last()).drop_last() =~= k);
        } else {
            lemma_negligible_weight(m.last().0);
        }
    }
}

/// Starting from a combined state whose entries hold the exact probabilities of
/// their cells (as every rebuild leaves it), the incremental updates of
/// interference keep them exact: each entry it leaves equals the probability of
/// its cell under the merged configurations (before those of negligible
/// amplitude are removed), and each listed cell whose entry it removes has
/// probability at most `CELL_EPSILON` there. A rebuild from the configurations that interference
/// keeps gives each cell that probability less the share of the removed
/// configurations, at most `NEGLIGIBLE_WEIGHT` for each.
pub proof fn lemma_interference_keeps_combined_state(s: Seq<ConfigurationView>, comb: Seq<(Coordinates, i128)>)
    requires
        s.len() <= usize::MAX,
        entries_exact(comb, s),
    ensures
        forall|x: int|
            0 <= x < interfered_combined(s, comb).len() ==> (#[trigger] interfered_combined(s, comb)[x]).1
                == cell_probability(merged(s, s.len() as int), interfered_combined(s, comb)[x].0),
        forall|c: Coordinates|
            keys(comb).contains(c) && !keys(interfered_combined(s, comb)).contains(c) ==> cell_probability(
                merged(s, s.len() as int),
                c,
            ) <= CELL_EPSILON,
        forall|c: Coordinates|
            0 <= #[trigger] cell_probability(merged(s, s.len() as int), c) - cell_probability(
                interfered_state(s),
                c,
            ) <= s.len() * NEGLIGIBLE_WEIGHT,
{
    let n = s.len() as int;
    lemma_merged_shape(s, n);
    assert forall|c: Coordinates|
        0 <= #[trigger] cell_probability(merged(s, n), c) - cell_probability(interfered_state(s), c)
            <= s.len() * NEGLIGIBLE_WEIGHT by {
        lemma_keep_significant_probability(merged(s, n), c);
    }
    let mc = merged_combined(s, comb, n);
    let r = interfered_combined(s, comb);
    lemma_merged_combined_exact(s, comb, n);
    lemma_keep_above_epsilon(mc);
    assert forall|x: int| 0 <= x < r.len() implies (#[trigger] r[x]).1 == cell_probability(
        merged(s, n),
        r[x].0,
    ) by {
        let k = choose|k: int| 0 <= k < mc.len() && mc[k] == r[x];
        assert(mc[k].0 == comb[k].0);
    }
    assert forall|c: Coordinates| keys(comb).contains(c) && !keys(r).contains(c) implies cell_probability(
        merged(s, n),
        c,
    ) <= CELL_EPSILON by {
        let k = choose|k: int| 0 <= k < comb.len() && keys(comb)[k] == c;
        assert(mc[k].0 == c);
        if mc[k].1 > CELL_EPSILON {
            assert(r.contains(mc[k]));
            let y = choose|y: int| 0 <= y < r.len() && r[y] == mc[k];
            assert(keys(r)[y] == c);
        }
    }
}

fn includes_all(a: &Vec<Coordinates>, b: &Vec<Coordinates>) -> (r: bool)
    ensures
        r == (forall|q: Coordinates| a@.contains(q) ==> b@.contains(q)),
{
    let mut i: usize = 0;
    while i < a.len()
        invariant
            0 <= i <= a@.len(),
            forall|k: int| 0 <= k < i ==> b@.contains(#[trigger] a@[k]),
        decreases a@.len() - i,
    {
        if !contains_cell(b, a[i]) {
            assert(a@.contains(a@[i as int]));
            return false;
        }
        i = i + 1;
    }
    assert forall|q: Coordinates| a@.contains(q) implies b@.contains(q) by {
        let k = choose|k: int| 0 <= k < a@.len() && a@[k] == q;
    }
    true
}

/// Whether the two lists name the same set of cells.
fn same_cells_exec(a: &Vec<Coordinates>, b: &Vec<Coordinates>) -> (r: bool)
    ensures
        r == same_cells(a@, b@),
{
    let ab: bool = includes_all(a, b);
    let ba: bool = includes_all(b, a);
    if ab && ba {
        assert(a@.to_set() =~= b@.to_set());
        true
    } else {
        proof {
            if same_cells(a@, b@) {
                assert forall|q: Coordinates| a@.contains(q) implies b@.contains(q) by {
                    assert(a@.to_set().contains(q));
                }
                assert forall|q: Coordinates| b@.contains(q) implies a@.contains(q) by {
                    assert(b@.to_set().contains(q));
                }
            }
        }
        false
    }
}

fn copy_indices(v: &Vec<usize>) -> (r: Vec<usize>)
    ensures
        r@ == v@,
{
    let mut r: Vec<usize> = Vec::new();
    let mut i: usize = 0;
    while i < v.len()
        invariant
            0 <= i <= v@.len(),
            r@ == v@.subrange(0, i as int),
        decreases v@.len() - i,
    {
        r.push(v[i]);
        i = i + 1;
        assert(r@ =~= v@.subrange(0, i as int));
    }
    assert(r@ =~= v@);
    r
}

fn saturating_add_i128(v: i128, d: i128) -> (r: i128)
    ensures
        r == clamp_i128(v + d),
{
    if d >= 0 {
        if v > i128::MAX - d {
            i128::MAX
        } else {
            v + d
        }
    } else {
        if v < i128::MIN - d {
            i128::MIN
        } else {
            v + d
        }
    }
}

fn copy_configuration(c: &Configuration) -> (r: Configuration)
    ensures
        r@ == c@,
{
    Configuration { amplitude: c.amplitude, living_cells: copy_cells(&c.living_cells) }
}

broadcast use vstd::std_specs::hash::group_hash_axioms;

impl Universe {
    /// Coalesces the configurations that have the same set of alive cells,
    /// found by their fingerprints and confirmed on the cells: in index order,
    /// each one whose cells an earlier one has adds its amplitude
    /// into the first such one, is set to zero, and adds
    /// `|a₁ + a₂|² - |a₁|² - |a₂|²` to the combined-state entry of each of its
    /// cells. Then the configurations whose amplitude is negligible and the
    /// combined-state entries at or below `CELL_EPSILON` are removed.
    pub fn solve_interference(&mut self)
        requires
            old(self).wf(),
        ensures
            final(self).wf(),
            views(final(self).state@) == interfered_state(views(old(self).state@)),
            final(self).combined_state@ == interfered_combined(
                views(old(self).state@),
                old(self).combined_state@,
            ),
            final(self).is_even_step == old(self).is_even_step,
            final(self).step_count == old(self).step_count,
            final(self).rules == old(self).rules,
            forall|i: int, j: int|
                0 <= i < j < final(self).state@.len() ==> !same_cells(
                    final(self).state@[i].living_cells@,
                    final(self).state@[j].living_cells@,
                ),
    {
        let ghost s: Seq<ConfigurationView> = views(self.state@);
        let ghost comb0: Seq<(Coordinates, i128)> = self.combined_state@;
        let ghost even0: bool = self.is_even_step;
        let ghost count0: u64 = self.step_count;
        let ghost rules0 = self.rules;
        let len: usize = self.state.len();
        // Representatives, the first configuration with each set of cells,
        // listed by a key of their fingerprint.
        let mut buckets: HashMap<u64, Vec<usize>> = HashMap::new();
        let mut n: usize = 0;
        proof {
            assert forall|k: int| 0 <= k < s.len() implies (#[trigger] s[k]).1.no_duplicates() by {
                assert(self.state@[k].wf());
            }
        }
        while n < len
            invariant
                0 <= n <= len,
                len == s.len(),
                self.is_even_step == even0,
                self.step_count == count0,
                self.rules == rules0,
                self.state@.len() == len,
                forall|k: int| 0 <= k < s.len() ==> (#[trigger] s[k]).1.no_duplicates(),
                views(self.state@) == merged(s, n as int),
                self.combined_state@ == merged_combined(s, comb0, n as int),
                keys(self.combined_state@) == keys(comb0),
                keys(comb0).no_duplicates(),
                forall|k: u64, t: int|
                    0 <= t < bucket_of(buckets@, k).len() ==> (#[trigger] bucket_of(buckets@, k)[t]) < n
                        && first_with_cells(
                        s,
                        s[bucket_of(buckets@, k)[t] as int].1,
                        bucket_of(buckets@, k)[t] as int,
                    ) == bucket_of(buckets@, k)[t] && cells_key(s[bucket_of(buckets@, k)[t] as int].1)
                        == k,
                forall|j: int| 0 <= j < n ==> represented(s, buckets@, j),
            decreases len - n,
        {
            proof {
                lemma_merged_shape(s, n as int);
                lemma_first_with_cells(s, s[n as int].1, n as int);
            }
            proof {
                assert(views(self.state@)[n as int] == self.state@[n as int]@);
            }
            let fingerprint_n: Vec<u8> = fingerprint(&self.state[n].living_cells);
            let key_n: u64 = fingerprint_key(&fingerprint_n);
            let bucket: Vec<usize> = match buckets.get(&key_n) {
                Some(b) => copy_indices(b),
                None => Vec::new(),
            };
            let ghost reps: Seq<usize> = bucket@;
            assert(reps == bucket_of(buckets@, key_n));
            let mut found: Option<usize> = None;
            let mut t: usize = 0;
            while t < bucket.len() && found.is_none()
                invariant
                    0 <= t <= reps.len(),
                    bucket@ == reps,
                    0 <= n < len,
                    len == s.len(),
                    self.state@.len() == len,
                    merged(s, n as int).len() == s.len(),
                    forall|k: int| 0 <= k < s.len() ==> (#[trigger] merged(s, n as int)[k]).1 == s[k].1,
                    views(self.state@) == merged(s, n as int),
                    forall|m: int| 0 <= m < reps.len() ==> (#[trigger] reps[m]) < n,
                    found is None ==> forall|m: int|
                        0 <= m < t ==> !same_cells(s[(#[trigger] reps[m]) as int].1, s[n as int].1),
                    found matches Some(j) ==> reps.contains(j) && same_cells(s[j as int].1, s[n as int].1),
                decreases reps.len() - t,
            {
                let r: usize = bucket[t];
                proof {
                    assert(views(self.state@)[r as int] == self.state@[r as int]@);
                    assert(views(self.state@)[n as int] == self.state@[n as int]@);
                }
                if same_cells_exec(&self.state[r].living_cells, &self.state[n].living_cells) {
                    found = Some(r);
                    assert(reps[t as int] == r);
                }
                t = t + 1;
            }
            let ghost m: Seq<ConfigurationView> = merged(s, n as int);
            let ghost first: int = first_with_cells(s, s[n as int].1, n as int);
            match found {
                None => {
                    proof {
                        assert forall|j: int| 0 <= j < n implies !same_cells(#[trigger] s[j].1, s[n as int].1) by {
                            if same_cells(s[j].1, s[n as int].1) {
                                assert(represented(s, buckets@, j));
                                lemma_fingerprint_of_same_set(s[j].1, s[n as int].1);
                                assert(cells_key(s[j].1) == key_n);
                                let w = choose|w: int| 0 <= w < reps.len() && same_cells(s[reps[w] as int].1, #[trigger] s[j].1);
                                assert(!same_cells(s[reps[w] as int].1, s[n as int].1));
                            }
                        }
                        assert(first == n);
                        assert(merged(s, n + 1) == m);
                        assert(merged_combined(s, comb0, n + 1) == merged_combined(s, comb0, n as int));
                    }
                    let ghost old_map: Map<u64, Vec<usize>> = buckets@;
                    let mut grown: Vec<usize> = bucket;
                    grown.push(n);
                    let ghost grown_view: Vec<usize> = grown;
                    buckets.insert(key_n, grown);
                    proof {
                        assert(buckets@ == old_map.insert(key_n, grown_view));
                        assert(grown_view@ == reps.push(n));
                        assert(bucket_of(buckets@, key_n) == reps.push(n));
                        assert(cells_key(s[n as int].1) == key_n);
                        assert forall|k: u64, t: int|
                            0 <= t < bucket_of(buckets@, k).len() implies (#[trigger] bucket_of(buckets@, k)[t]) < n + 1
                                && first_with_cells(
                                s,
                                s[bucket_of(buckets@, k)[t] as int].1,
                                bucket_of(buckets@, k)[t] as int,
                            ) == bucket_of(buckets@, k)[t] && cells_key(s[bucket_of(buckets@, k)[t] as int].1)
                                == k by {
                            if k != key_n {
                                assert(bucket_of(buckets@, k) == bucket_of(old_map, k));
                            } else if t < reps.len() {
                                assert(bucket_of(buckets@, k)[t] == bucket_of(old_map, k)[t]);
                            }
                        }
                        assert forall|j: int| 0 <= j < n + 1 implies represented(s, buckets@, j) by {
                            let kj = cells_key(s[j].1);
                            if j < n {
                                assert(represented(s, old_map, j));
                                let w = choose|w: int|
                                    0 <= w < bucket_of(old_map, kj).len() && same_cells(
                                        s[bucket_of(old_map, kj)[w] as int].1,
                                        #[trigger] s[j].1,
                                    );
                                if kj == key_n {
                                    assert(bucket_of(buckets@, kj)[w] == bucket_of(old_map, kj)[w]);
                                } else {
                                    assert(bucket_of(buckets@, kj) == bucket_of(old_map, kj));
                                }
                            } else {
                                assert(bucket_of(buckets@, kj)[reps.len() as int] == n);
                                assert(same_cells(s[n as int].1, s[j].1));
                            }
                        }
                    }
                },
                Some(j) => {
                    proof {
                        let w = choose|w: int| 0 <= w < reps.len() && reps[w] == j;
                        assert(bucket_of(buckets@, key_n)[w] == j);
                        lemma_first_with_cells(s, s[j as int].1, j as int);
                        if first < j {
                            assert(same_cells(s[first].1, s[j as int].1));
                        }
                        assert(first == j);
                        assert(views(self.state@)[j as int] == self.state@[j as int]@);
                        assert(views(self.state@)[n as int] == self.state@[n as int]@);
                    }
                    let current: Amplitude = self.state[n].amplitude;
                    let interference: Amplitude = self.state[j].amplitude;
                    let sum: Amplitude = amplitude_add(interference, current);
                    proof {
                        lemma_norm_bounds(sum);
                        lemma_norm_bounds(current);
                        lemma_norm_bounds(interference);
                    }
                    let delta: i128 = amplitude_norm_sqr(sum) as i128 - amplitude_norm_sqr(current) as i128
                        - amplitude_norm_sqr(interference) as i128;
                    assert(delta == merge_delta(m, j as int, n as int));
                    let cells_j: Vec<Coordinates> = copy_cells(&self.state[j].living_cells);
                    self.state.set(j, Configuration { amplitude: sum, living_cells: cells_j });
                    let cells_n: Vec<Coordinates> = copy_cells(&self.state[n].living_cells);
                    self.state.set(n, Configuration { amplitude: zero(), living_cells: cells_n });
                    proof {
                        assert(views(self.state@) =~= merge_into(m, j as int, n as int));
                        assert(merged(s, n + 1) == merge_into(m, j as int, n as int));
                    }
                    let ghost prev: Seq<(Coordinates, i128)> = self.combined_state@;
                    let ghost st: Seq<Configuration> = self.state@;
                    let mut e: usize = 0;
                    while e < self.combined_state.len()
                        invariant
                            0 <= n < len,
                            len == s.len(),
                            self.is_even_step == even0,
                            self.step_count == count0,
                            self.rules == rules0,
                            self.state@ == st,
                            self.state@.len() == len,
                            self.state@[n as int].living_cells@ == s[n as int].1,
                            self.combined_state@.len() == prev.len(),
                            0 <= e <= prev.len(),
                            forall|x: int| 0 <= x < e ==> #[trigger] self.combined_state@[x] == (if s[n as int].1.contains(prev[x].0) {
                                (prev[x].0, clamp_i128(prev[x].1 + delta))
                            } else {
                                prev[x]
                            }),
                            forall|x: int| e <= x < prev.len() ==> #[trigger] self.combined_state@[x] == prev[x],
                        decreases prev.len() - e,
                    {
                        let entry: (Coordinates, i128) = self.combined_state[e];
                        if contains_cell(&self.state[n].living_cells, entry.0) {
                            let value: i128 = saturating_add_i128(entry.1, delta);
                            self.combined_state.set(e, (entry.0, value));
                        }
                        e = e + 1;
                    }
                    proof {
                        assert(self.combined_state@ =~= shift_cells(prev, s[n as int].1, delta as int));
                        assert(keys(self.combined_state@) =~= keys(prev));
                        assert(merged_combined(s, comb0, n + 1) == shift_cells(prev, s[n as int].1, merge_delta(m, j as int, n as int)));
                    }
                    proof {
                        assert forall|x: int| 0 <= x < n + 1 implies represented(s, buckets@, x) by {
                            if x == n {
                                let w = choose|w: int| 0 <= w < reps.len() && reps[w] == j;
                                assert(cells_key(s[x].1) == key_n);
                                assert(same_cells(s[reps[w] as int].1, s[x].1));
                            }
                        }
                    }
                },
            }
            n = n + 1;
        }
        proof {
            lemma_merged_shape(s, len as int);
        }
        let ghost m: Seq<ConfigurationView> = merged(s, len as int);
        let mut kept: Vec<Configuration> = Vec::new();
        let mut k: usize = 0;
        while k < len
            invariant
                0 <= k <= len,
                len == s.len(),
                self.state@.len() == len,
                views(self.state@) == m,
                m.len() == s.len(),
                forall|q: int| 0 <= q < s.len() ==> (#[trigger] m[q]).1 == s[q].1,
                forall|q: int|
                    0 <= q < s.len() && first_with_cells(s, s[q].1, q) != q ==> is_zero(
                        (#[trigger] m[q]).0,
                    ),
                forall|q: int| 0 <= q < s.len() ==> (#[trigger] s[q]).1.no_duplicates(),
                views(kept@) == keep_significant(m.subrange(0, k as int)),
                forall|x: int| 0 <= x < kept@.len() ==> (#[trigger] kept@[x]).wf(),
                forall|x: int|
                    0 <= x < kept@.len() ==> exists|q: int|
                        0 <= q < k && (#[trigger] kept@[x]).living_cells@ == s[q].1,
                forall|x: int, y: int|
                    0 <= x < y < kept@.len() ==> !same_cells(
                        kept@[x].living_cells@,
                        kept@[y].living_cells@,
                    ),
            decreases len - k,
        {
            proof {
                assert(views(self.state@)[k as int] == self.state@[k as int]@);
                assert(m.subrange(0, k + 1).drop_last() =~= m.subrange(0, k as int));
            }
            if amplitude_is_significant(self.state[k].amplitude) {
                let c: Configuration = copy_configuration(&self.state[k]);
                proof {
                    if first_with_cells(s, s[k as int].1, k as int) != k {
                        assert(is_zero(m[k as int].0));
                    }
                    lemma_first_with_cells(s, s[k as int].1, k as int);
                    assert forall|x: int| 0 <= x < kept@.len() implies !same_cells(
                        kept@[x].living_cells@,
                        c.living_cells@,
                    ) by {
                        let q = choose|q: int| 0 <= q < k && (#[trigger] kept@[x]).living_cells@ == s[q].1;
                        assert(!same_cells(s[q].1, s[k as int].1));
                    }
                }
                let ghost old_kept: Seq<Configuration> = kept@;
                kept.push(c);
                proof {
                    assert(views(kept@) =~= views(old_kept).push(c@));
                    assert forall|x: int| 0 <= x < kept@.len() implies exists|q: int|
                        0 <= q < k + 1 && (#[trigger] kept@[x]).living_cells@ == s[q].1 by {
                        if x < old_kept.len() {
                            assert(kept@[x] == old_kept[x]);
                        } else {
                            assert(kept@[x].living_cells@ == s[k as int].1);
                        }
                    }
                    assert forall|x: int, y: int| 0 <= x < y < kept@.len() implies !same_cells(
                        kept@[x].living_cells@,
                        kept@[y].living_cells@,
                    ) by {
                        if y < old_kept.len() {
                            assert(kept@[x] == old_kept[x]);
                            assert(kept@[y] == old_kept[y]);
                        } else {
                            assert(kept@[x] == old_kept[x]);
                        }
                    }
                    assert forall|x: int| 0 <= x < kept@.len() implies (#[trigger] kept@[x]).wf() by {
                        if x < old_kept.len() {
                            assert(kept@[x] == old_kept[x]);
                        }
                    }
                }
            }
            k = k + 1;
        }
        assert(m.subrange(0, k as int) =~= m);
        let kept_entries: Vec<(Coordinates, i128)> = keep_entries_above_epsilon(&self.combined_state);
        proof {
            lemma_keep_above_epsilon(self.combined_state@);
        }
        self.state = kept;
        self.combined_state = kept_entries;
    }
}

} // verus!
