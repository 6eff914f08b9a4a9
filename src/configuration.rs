use vstd::prelude::*;

use crate::block::{block_cell, block_cells_of, block_origin, block_origin_of};
use crate::block::{decode, encode, lemma_block_partition};
use crate::complex::{amplitude_mul, spec_amplitude_mul, Amplitude};
use crate::coordinates::Coordinates;
use vstd::arithmetic::div_mod::lemma_fundamental_div_mod;

use crate::rules::{alternatives, compute_rules, Rules};

verus! {

/// One classical snapshot of the lattice, weighted by a complex amplitude.
/// `living_cells` lists the alive cells, each once.
#[derive(Clone, Debug)]
pub struct Configuration {
    pub amplitude: Amplitude,
    pub living_cells: Vec<Coordinates>,
}

/// What a configuration is: its amplitude and its alive cells.
pub type ConfigurationView = (Amplitude, Seq<Coordinates>);

impl View for Configuration {
    type V = ConfigurationView;

    open spec fn view(&self) -> ConfigurationView {
        (self.amplitude, self.living_cells@)
    }
}

impl Configuration {
    /// A configuration with the given amplitude whose alive cells are those
    /// listed in `cells`, each kept once, at its first occurrence.
    pub fn new(amplitude: Amplitude, cells: Vec<Coordinates>) -> (r: Configuration)
        ensures
            r.wf(),
            r.amplitude == amplitude,
            r.living_cells@ == distinct_cells(cells@),
            r.living_cells@.to_set() == cells@.to_set(),
    {
        let mut living_cells: Vec<Coordinates> = Vec::new();
        let mut i: usize = 0;
        while i < cells.len()
            invariant
                0 <= i <= cells@.len(),
                living_cells@ == distinct_cells(cells@.subrange(0, i as int)),
            decreases cells@.len() - i,
        {
            proof {
                assert(cells@.subrange(0, i + 1).drop_last() =~= cells@.subrange(0, i as int));
            }
            if !contains_cell(&living_cells, cells[i]) {
                living_cells.push(cells[i]);
            }
            i = i + 1;
        }
        proof {
            assert(cells@.subrange(0, i as int) =~= cells@);
            lemma_distinct_cells(cells@);
        }
        Configuration { amplitude, living_cells }
    }

    /// Each alive cell is listed once.
    pub open spec fn wf(&self) -> bool {
        self.living_cells@.no_duplicates()
    }
}

/// `cells` with every repeated cell after its first occurrence removed.
pub open spec fn distinct_cells(cells: Seq<Coordinates>) -> Seq<Coordinates>
    decreases cells.len(),
{
    if cells.len() == 0 {
        seq![]
    } else {
        let prev = distinct_cells(cells.drop_last());
        if prev.contains(cells.last()) {
            prev
        } else {
            prev.push(cells.last())
        }
    }
}

proof fn lemma_distinct_cells(cells: Seq<Coordinates>)
    ensures
        distinct_cells(cells).no_duplicates(),
        distinct_cells(cells).to_set() == cells.to_set(),
    decreases cells.len(),
{
    if cells.len() > 0 {
        lemma_distinct_cells(cells.drop_last());
        assert(cells.to_set() =~= cells.drop_last().to_set().insert(cells.last())) by {
            assert forall|q: Coordinates| cells.to_set().contains(q) implies cells.drop_last().to_set().insert(
                cells.last(),
            ).contains(q) by {
                let i = choose|i: int| 0 <= i < cells.len() && cells[i] == q;
                if i < cells.len() - 1 {
                    assert(cells.drop_last()[i] == q);
                }
            }
            assert forall|q: Coordinates| cells.drop_last().to_set().insert(cells.last()).contains(q) implies cells.to_set().contains(q) by {
                if q != cells.last() {
                    let i = choose|i: int| 0 <= i < cells.len() - 1 && cells.drop_last()[i] == q;
                    assert(cells[i] == q);
                }
            }
        }
        let prev = distinct_cells(cells.drop_last());
        if !prev.contains(cells.last()) {
            assert(prev.push(cells.last()).to_set() =~= prev.to_set().insert(cells.last())) by {
                assert forall|q: Coordinates| prev.push(cells.last()).to_set().contains(q) implies prev.to_set().insert(cells.last()).contains(q) by {
                    let i = choose|i: int| 0 <= i < prev.len() + 1 && prev.push(cells.last())[i] == q;
                    if i < prev.len() {
                        assert(prev[i] == q);
                    }
                }
                assert forall|q: Coordinates| prev.to_set().insert(cells.last()).contains(q) implies prev.push(cells.last()).to_set().contains(q) by {
                    if q == cells.last() {
                        assert(prev.push(cells.last())[prev.len() as int] == q);
                    } else {
                        let i = choose|i: int| 0 <= i < prev.len() && prev[i] == q;
                        assert(prev.push(cells.last())[i] == q);
                    }
                }
            }
        } else {
            assert(prev.to_set().insert(cells.last()) =~= prev.to_set());
        }
    }
}

/// What each configuration of a list is, in order.
pub open spec fn views(s: Seq<Configuration>) -> Seq<ConfigurationView> {
    s.map_values(|c: Configuration| c@)
}

/// The top-left cells of the blocks that hold `cells`, each once, in the order
/// in which a walk through `cells` first meets them.
pub open spec fn block_origins(cells: Seq<Coordinates>, is_even_step: bool) -> Seq<Coordinates>
    decreases cells.len(),
{
    if cells.len() == 0 {
        seq![]
    } else {
        let prev = block_origins(cells.drop_last(), is_even_step);
        let o = block_origin(cells.last(), is_even_step);
        if prev.contains(o) {
            prev
        } else {
            prev.push(o)
        }
    }
}

/// The state of the block with top-left cell `o`: which of its four cells are
/// alive.
pub open spec fn block_input(cells: Seq<Coordinates>, o: Coordinates) -> Seq<bool> {
    seq![
        cells.contains(block_cell(o, 0)),
        cells.contains(block_cell(o, 1)),
        cells.contains(block_cell(o, 2)),
        cells.contains(block_cell(o, 3)),
    ]
}

/// `c` alone where it is alive, else nothing.
pub open spec fn cell_if(alive: bool, c: Coordinates) -> Seq<Coordinates> {
    if alive {
        seq![c]
    } else {
        seq![]
    }
}

/// The alive cells that the block state `bits` puts in the block with top-left
/// cell `o`, in reading order.
pub open spec fn placed_cells(o: Coordinates, bits: Seq<bool>) -> Seq<Coordinates> {
    cell_if(bits[0], block_cell(o, 0)) + cell_if(bits[1], block_cell(o, 1)) + cell_if(
        bits[2],
        block_cell(o, 2),
    ) + cell_if(bits[3], block_cell(o, 3))
}

/// A working configuration after the block `o` took the outcome `alt`.
pub open spec fn extend(w: ConfigurationView, o: Coordinates, alt: (Amplitude, int)) -> ConfigurationView {
    (spec_amplitude_mul(w.0, alt.0), w.1 + placed_cells(o, decode(alt.1)))
}

/// Every working configuration, in order, each followed by all the outcomes of
/// the block `o` in turn.
pub open spec fn expand(ws: Seq<ConfigurationView>, o: Coordinates, alts: Seq<(Amplitude, int)>) -> Seq<ConfigurationView>
    decreases ws.len(),
{
    if ws.len() == 0 {
        seq![]
    } else {
        expand(ws.drop_last(), o, alts) + alts.map_values(|a: (Amplitude, int)| extend(ws.last(), o, a))
    }
}

/// The working configurations after the block `o` of `cells` was processed.
/// A block in a forbidden state leaves them as they are.
pub open spec fn apply_block(ws: Seq<ConfigurationView>, cells: Seq<Coordinates>, o: Coordinates, rules: Rules) -> Seq<ConfigurationView> {
    let alts = alternatives(rules, encode(block_input(cells, o)));
    if alts.len() == 0 {
        ws
    } else {
        expand(ws, o, alts)
    }
}

/// The working configurations of `c` after the blocks `origins` were processed
/// in order, starting from one with the amplitude of `c` and no alive cell.
pub open spec fn fan_out(c: ConfigurationView, origins: Seq<Coordinates>, rules: Rules) -> Seq<ConfigurationView>
    decreases origins.len(),
{
    if origins.len() == 0 {
        seq![(c.0, seq![])]
    } else {
        apply_block(fan_out(c, origins.drop_last(), rules), c.1, origins.last(), rules)
    }
}

/// The configurations that one step makes of `c`.
pub open spec fn step_configuration(c: ConfigurationView, rules: Rules, is_even_step: bool) -> Seq<ConfigurationView> {
    fan_out(c, block_origins(c.1, is_even_step), rules)
}

/// The cells that a block state puts in a block lie in that block, each once.
proof fn lemma_placed_cells(o: Coordinates, bits: Seq<bool>, is_even_step: bool)
    requires
        block_origin(o, is_even_step) == o,
        bits.len() == 4,
    ensures
        placed_cells(o, bits).no_duplicates(),
        forall|q: Coordinates|
            #[trigger] placed_cells(o, bits).contains(q) ==> block_origin(q, is_even_step) == o,
{
    lemma_block_partition(o, is_even_step);
    let c0 = cell_if(bits[0], block_cell(o, 0));
    let c1 = cell_if(bits[1], block_cell(o, 1));
    let c2 = cell_if(bits[2], block_cell(o, 2));
    let c3 = cell_if(bits[3], block_cell(o, 3));
    let p = placed_cells(o, bits);
    assert forall|q: Coordinates| #[trigger] p.contains(q) implies block_origin(q, is_even_step) == o by {
        let i = choose|i: int| 0 <= i < p.len() && p[i] == q;
        assert(p[i] == block_cell(o, 0) || p[i] == block_cell(o, 1) || p[i] == block_cell(o, 2)
            || p[i] == block_cell(o, 3));
    }
    assert forall|i: int, j: int| 0 <= i < p.len() && 0 <= j < p.len() && i != j implies p[i]
        != p[j] by {
        let l0 = c0.len() as int;
        let l1 = l0 + c1.len();
        let l2 = l1 + c2.len();
        let kind = |n: int| if n < l0 { 0int } else if n < l1 { 1int } else if n < l2 { 2int } else { 3int };
        assert(p[i] == block_cell(o, kind(i)));
        assert(p[j] == block_cell(o, kind(j)));
    }
}

/// The blocks that a walk meets are distinct, and each is named by its own
/// top-left cell.
proof fn lemma_block_origins(cells: Seq<Coordinates>, is_even_step: bool)
    ensures
        block_origins(cells, is_even_step).no_duplicates(),
        forall|k: int|
            0 <= k < block_origins(cells, is_even_step).len() ==> block_origin(
                #[trigger] block_origins(cells, is_even_step)[k],
                is_even_step,
            ) == block_origins(cells, is_even_step)[k],
    decreases cells.len(),
{
    if cells.len() > 0 {
        lemma_block_origins(cells.drop_last(), is_even_step);
        lemma_block_partition(cells.last(), is_even_step);
        let o = block_origin(cells.last(), is_even_step);
        assert(block_origin(block_cell(o, 0), is_even_step) == o);
    }
}

/// The place of the pair of working configuration `i` and outcome `k` in an
/// expansion by `len` outcomes.
pub open spec fn expand_index(i: int, k: int, len: int) -> int {
    i * len + k
}

/// An expansion lists, for each working configuration in turn, that
/// configuration extended by each outcome in turn.
proof fn lemma_expand_members(ws: Seq<ConfigurationView>, o: Coordinates, alts: Seq<(Amplitude, int)>)
    ensures
        expand(ws, o, alts).len() == ws.len() * alts.len(),
        forall|i: int, k: int|
            0 <= i < ws.len() && 0 <= k < alts.len() ==> #[trigger] expand(ws, o, alts)[expand_index(
                i,
                k,
                alts.len() as int,
            )] == extend(ws[i], o, alts[k]),
    decreases ws.len(),
{
    lemma_expand_len(ws, o, alts);
    if ws.len() > 0 {
        let prev = ws.drop_last();
        lemma_expand_members(prev, o, alts);
        let e = expand(ws, o, alts);
        let head = expand(prev, o, alts);
        let tail = alts.map_values(|a: (Amplitude, int)| extend(ws.last(), o, a));
        let len = alts.len() as int;
        assert(e == head + tail);
        assert forall|i: int, k: int| 0 <= i < ws.len() && 0 <= k < len implies #[trigger] e[expand_index(
            i,
            k,
            len,
        )] == extend(ws[i], o, alts[k]) by {
            let idx = expand_index(i, k, len);
            if i < ws.len() - 1 {
                assert(i * len + k < (ws.len() - 1) * len) by (nonlinear_arith)
                    requires
                        0 <= i < ws.len() - 1,
                        0 <= k < len,
                ;
                assert(e[idx] == head[idx]);
                assert(prev[i] == ws[i]);
            } else {
                assert(idx - head.len() == k) by (nonlinear_arith)
                    requires
                        i == ws.len() - 1,
                        idx == i * len + k,
                        head.len() == (ws.len() - 1) * len,
                ;
                assert(e[idx] == tail[k]);
            }
        }
    }
}

/// Every working configuration lists each alive cell once, and its cells lie
/// in the blocks processed so far.
proof fn lemma_fan_out_cells(c: ConfigurationView, origins: Seq<Coordinates>, rules: Rules, is_even_step: bool)
    requires
        origins.no_duplicates(),
        forall|k: int|
            0 <= k < origins.len() ==> block_origin(#[trigger] origins[k], is_even_step) == origins[k],
    ensures
        forall|n: int|
            0 <= n < fan_out(c, origins, rules).len() ==> (#[trigger] fan_out(c, origins, rules)[n]).1.no_duplicates()
                && forall|q: Coordinates|
                #[trigger] fan_out(c, origins, rules)[n].1.contains(q) ==> origins.contains(
                    block_origin(q, is_even_step),
                ),
    decreases origins.len(),
{
    if origins.len() > 0 {
        let prev = origins.drop_last();
        let o = origins.last();
        assert forall|k: int| 0 <= k < prev.len() implies block_origin(#[trigger] prev[k], is_even_step)
            == prev[k] by {
            assert(prev[k] == origins[k]);
        }
        lemma_fan_out_cells(c, prev, rules, is_even_step);
        let ws = fan_out(c, prev, rules);
        let alts = alternatives(rules, encode(block_input(c.1, o)));
        assert forall|q: Coordinates| prev.contains(q) implies origins.contains(q) by {
            let i = choose|i: int| 0 <= i < prev.len() && prev[i] == q;
            assert(origins[i] == q);
        }
        assert(!prev.contains(o)) by {
            if prev.contains(o) {
                let i = choose|i: int| 0 <= i < prev.len() && prev[i] == o;
                assert(origins[i] == origins[origins.len() - 1]);
            }
        }
        assert(block_origin(o, is_even_step) == o);
        if alts.len() > 0 {
            lemma_expand_members(ws, o, alts);
            let e = expand(ws, o, alts);
            assert forall|n: int| 0 <= n < e.len() implies (#[trigger] e[n]).1.no_duplicates()
                && forall|q: Coordinates| #[trigger] e[n].1.contains(q) ==> origins.contains(
                block_origin(q, is_even_step),
            ) by {
                let len = alts.len() as int;
                let i = n / len;
                let k = n % len;
                lemma_fundamental_div_mod(n, len);
                assert(0 <= k < len);
                assert(0 <= i < ws.len()) by (nonlinear_arith)
                    requires
                        n == len * i + k,
                        0 <= k < len,
                        0 <= n < ws.len() * len,
                ;
                assert(n == expand_index(i, k, len));
                assert(e[n] == extend(ws[i], o, alts[k]));
                let w = ws[i];
                let placed = placed_cells(o, decode(alts[k].1));
                lemma_placed_cells(o, decode(alts[k].1), is_even_step);
                let cells = w.1 + placed;
                assert(e[n].1 == cells);
                assert forall|a: int, b: int| 0 <= a < cells.len() && 0 <= b < cells.len() && a != b
                    implies cells[a] != cells[b] by {
                    if a < w.1.len() && b >= w.1.len() {
                        assert(w.1.contains(cells[a]));
                        assert(placed.contains(cells[b]));
                    } else if a >= w.1.len() && b < w.1.len() {
                        assert(w.1.contains(cells[b]));
                        assert(placed.contains(cells[a]));
                    } else if a >= w.1.len() {
                        assert(placed[a - w.1.len()] != placed[b - w.1.len()]);
                    }
                }
                assert forall|q: Coordinates| #[trigger] cells.contains(q) implies origins.contains(
                    block_origin(q, is_even_step),
                ) by {
                    let m = choose|m: int| 0 <= m < cells.len() && cells[m] == q;
                    if m < w.1.len() {
                        assert(w.1.contains(q));
                    } else {
                        assert(placed.contains(q));
                        assert(origins[origins.len() - 1] == o);
                    }
                }
            }
        }
    }
}

/// One step of a configuration lists each alive cell of each result once.
pub proof fn lemma_step_configuration_wf(c: ConfigurationView, rules: Rules, is_even_step: bool)
    ensures
        forall|n: int|
            0 <= n < step_configuration(c, rules, is_even_step).len() ==> (
            #[trigger] step_configuration(c, rules, is_even_step)[n]).1.no_duplicates(),
{
    lemma_block_origins(c.1, is_even_step);
    lemma_fan_out_cells(c, block_origins(c.1, is_even_step), rules, is_even_step);
}

pub(crate) fn contains_cell(cells: &Vec<Coordinates>, c: Coordinates) -> (r: bool)
    ensures
        r == cells@.contains(c),
{
    let mut i: usize = 0;
    while i < cells.len()
        invariant
            0 <= i <= cells@.len(),
            forall|k: int| 0 <= k < i ==> cells@[k] != c,
        decreases cells@.len() - i,
    {
        if cells[i] == c {
            return true;
        }
        i = i + 1;
    }
    false
}

pub(crate) fn copy_cells(cells: &Vec<Coordinates>) -> (r: Vec<Coordinates>)
    ensures
        r@ == cells@,
{
    let mut r: Vec<Coordinates> = Vec::new();
    let mut i: usize = 0;
    while i < cells.len()
        invariant
            0 <= i <= cells@.len(),
            r@ == cells@.subrange(0, i as int),
        decreases cells@.len() - i,
    {
        r.push(cells[i]);
        i = i + 1;
        assert(r@ =~= cells@.subrange(0, i as int));
    }
    assert(r@ =~= cells@);
    r
}

/// `cells` followed by the alive cells that `bits` puts in the block `o`.
fn place_block(cells: Vec<Coordinates>, o: Coordinates, bits: [bool; 4]) -> (r: Vec<Coordinates>)
    ensures
        r@ == cells@ + placed_cells(o, bits@),
{
    let block: [Coordinates; 4] = block_cells_of(o);
    let mut r: Vec<Coordinates> = cells;
    let ghost start: Seq<Coordinates> = r@;
    if bits[0] {
        r.push(block[0]);
    }
    assert(r@ =~= start + cell_if(bits@[0], block_cell(o, 0)));
    if bits[1] {
        r.push(block[1]);
    }
    assert(r@ =~= start + cell_if(bits@[0], block_cell(o, 0)) + cell_if(bits@[1], block_cell(o, 1)));
    if bits[2] {
        r.push(block[2]);
    }
    assert(r@ =~= start + cell_if(bits@[0], block_cell(o, 0)) + cell_if(bits@[1], block_cell(o, 1))
        + cell_if(bits@[2], block_cell(o, 2)));
    if bits[3] {
        r.push(block[3]);
    }
    assert(r@ =~= start + placed_cells(o, bits@));
    r
}

/// Which of the four cells of the block `o` are alive in `cells`.
fn block_state(cells: &Vec<Coordinates>, o: Coordinates) -> (r: [bool; 4])
    ensures
        r@ == block_input(cells@, o),
{
    let block: [Coordinates; 4] = block_cells_of(o);
    let r: [bool; 4] = [
        contains_cell(cells, block[0]),
        contains_cell(cells, block[1]),
        contains_cell(cells, block[2]),
        contains_cell(cells, block[3]),
    ];
    assert(r@ =~= block_input(cells@, o));
    r
}

proof fn lemma_expand_len(ws: Seq<ConfigurationView>, o: Coordinates, alts: Seq<(Amplitude, int)>)
    ensures
        expand(ws, o, alts).len() == ws.len() * alts.len(),
    decreases ws.len(),
{
    if ws.len() > 0 {
        lemma_expand_len(ws.drop_last(), o, alts);
        assert(ws.len() * alts.len() == (ws.len() - 1) * alts.len() + alts.len()) by (nonlinear_arith);
    }
}

/// Each working configuration followed by each outcome of the block `o`.
fn expand_exec(
    works: &Vec<Configuration>,
    o: Coordinates,
    outcomes: &Vec<(Amplitude, [bool; 4])>,
    Ghost(alts): Ghost<Seq<(Amplitude, int)>>,
) -> (r: Vec<Configuration>)
    requires
        outcomes@.len() == alts.len(),
        forall|k: int|
            0 <= k < outcomes@.len() ==> (#[trigger] outcomes@[k]).0 == alts[k].0 && outcomes@[k].1@
                == decode(alts[k].1),
    ensures
        views(r@) == expand(views(works@), o, alts),
{
    let mut r: Vec<Configuration> = Vec::new();
    let mut i: usize = 0;
    while i < works.len()
        invariant
            0 <= i <= works@.len(),
            outcomes@.len() == alts.len(),
            forall|k: int|
                0 <= k < outcomes@.len() ==> (#[trigger] outcomes@[k]).0 == alts[k].0
                    && outcomes@[k].1@ == decode(alts[k].1),
            views(r@) == expand(views(works@).subrange(0, i as int), o, alts),
        decreases works@.len() - i,
    {
        let ghost before: Seq<ConfigurationView> = views(r@);
        let w: &Configuration = &works[i];
        let mut k: usize = 0;
        while k < outcomes.len()
            invariant
                0 <= i < works@.len(),
                0 <= k <= outcomes@.len(),
                *w == works@[i as int],
                outcomes@.len() == alts.len(),
                forall|m: int|
                    0 <= m < outcomes@.len() ==> (#[trigger] outcomes@[m]).0 == alts[m].0
                        && outcomes@[m].1@ == decode(alts[m].1),
                views(r@) == before + alts.subrange(0, k as int).map_values(
                    |a: (Amplitude, int)| extend(w@, o, a),
                ),
            decreases outcomes@.len() - k,
        {
            let outcome: (Amplitude, [bool; 4]) = outcomes[k];
            let cells: Vec<Coordinates> = place_block(copy_cells(&w.living_cells), o, outcome.1);
            let next: Configuration = Configuration {
                amplitude: amplitude_mul(w.amplitude, outcome.0),
                living_cells: cells,
            };
            let ghost r_before: Seq<Configuration> = r@;
            r.push(next);
            proof {
                assert(views(r@) =~= views(r_before).push(next@));
                assert(next@ == extend(w@, o, alts[k as int]));
                assert(alts.subrange(0, k + 1).map_values(|a: (Amplitude, int)| extend(w@, o, a))
                    =~= alts.subrange(0, k as int).map_values(
                    |a: (Amplitude, int)| extend(w@, o, a),
                ).push(extend(w@, o, alts[k as int])));
            }
            k = k + 1;
        }
        proof {
            let ws = views(works@).subrange(0, i + 1);
            assert(ws.drop_last() =~= views(works@).subrange(0, i as int));
            assert(ws.last() == w@);
            assert(alts.subrange(0, k as int) =~= alts);
        }
        i = i + 1;
    }
    assert(views(works@).subrange(0, i as int) =~= views(works@));
    r
}

impl Configuration {
    /// Advances this configuration by one tick of the rules: every block that
    /// holds an alive cell takes each outcome that its column of `rules` offers,
    /// and the result lists one configuration for each combination of outcomes.
    pub fn step(&self, rules: &Rules, is_even_step: bool) -> (r: Vec<Configuration>)
        ensures
            views(r@) == step_configuration(self@, *rules, is_even_step),
            forall|n: int| 0 <= n < r@.len() ==> (#[trigger] r@[n]).wf(),
    {
        let mut works: Vec<Configuration> = Vec::new();
        works.push(Configuration { amplitude: self.amplitude, living_cells: Vec::new() });
        let mut visited: Vec<Coordinates> = Vec::new();
        let mut i: usize = 0;
        assert(views(works@) =~= fan_out(self@, visited@, *rules));
        while i < self.living_cells.len()
            invariant
                0 <= i <= self.living_cells@.len(),
                visited@ == block_origins(self.living_cells@.subrange(0, i as int), is_even_step),
                views(works@) == fan_out(self@, visited@, *rules),
            decreases self.living_cells@.len() - i,
        {
            let ghost prefix: Seq<Coordinates> = self.living_cells@.subrange(0, i + 1);
            assert(prefix.drop_last() =~= self.living_cells@.subrange(0, i as int));
            let o: Coordinates = block_origin_of(self.living_cells[i], is_even_step);
            if !contains_cell(&visited, o) {
                let square: [bool; 4] = block_state(&self.living_cells, o);
                let outcomes: Vec<(Amplitude, [bool; 4])> = compute_rules(rules, square);
                let ghost alts = alternatives(*rules, encode(square@));
                if outcomes.len() > 0 {
                    works = expand_exec(&works, o, &outcomes, Ghost(alts));
                }
                let ghost old_visited: Seq<Coordinates> = visited@;
                visited.push(o);
                assert(visited@.drop_last() =~= old_visited);
            }
            i = i + 1;
        }
        assert(self.living_cells@.subrange(0, i as int) =~= self.living_cells@);
        proof {
            lemma_step_configuration_wf(self@, *rules, is_even_step);
            assert forall|n: int| 0 <= n < works@.len() implies (#[trigger] works@[n]).wf() by {
                assert(views(works@)[n] == works@[n]@);
                assert(step_configuration(self@, *rules, is_even_step)[n] == works@[n]@);
            }
        }
        works
    }
}

} // verus!
