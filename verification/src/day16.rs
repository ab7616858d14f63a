//! Valves in a cave: the most pressure that one agent, or two agents who share the
//! work, can release within a time budget.
//!
//! A cave holds valves joined by tunnels. Walking one tunnel takes a minute, opening a
//! valve takes a minute, and an open valve releases its flow rate in each minute that is
//! left. The search tries every order of opening the valves that have a flow.

use crate::graph::{bounded, is_hop_matrix, min_dists, square};
use crate::text::lines;
use crate::valve::{
    all_parse, edge_list, edges, find_label, is_sorted_copy, label_index, lemma_label_index,
    arranges, models, parse_input, parse_lines, parsed_valves, placed, resolves, sorted_by_id, Valve,
    ValveModel,
};
use itertools::Itertools;
use vstd::prelude::*;
use vstd::string::StringSliceAdditionalSpecFns;

verus! {

/// A cave compiled for the search.
pub struct Cave {
    pub valves: Vec<Valve>,
    pub flowable_valves: Vec<usize>,
    pub adj: Vec<Vec<i32>>,
}

/// A point in the search.
#[derive(Clone, Debug, PartialEq, Eq, Hash)]
pub struct State {
    pub location: usize,
    pub open_valves: Vec<usize>,
    pub eventual_pressure: i64,
    pub time_remaining: i32,
}

/// What the search reads of a cave: the flow rate of each valve, the valves worth
/// opening, and the hop count between each two valves.
pub ghost struct CaveModel {
    pub flows: Seq<int>,
    pub flowable: Seq<usize>,
    pub dist: Vec<Vec<i32>>,
}

/// A point in the search, as plain values.
pub ghost struct StateModel {
    pub location: int,
    pub open: Seq<usize>,
    pub value: int,
    pub time: int,
}

impl View for Cave {
    type V = CaveModel;

    open spec fn view(&self) -> CaveModel {
        CaveModel {
            flows: flow_rates(models(self.valves@)),
            flowable: self.flowable_valves@,
            dist: self.adj,
        }
    }
}

impl View for State {
    type V = StateModel;

    open spec fn view(&self) -> StateModel {
        StateModel {
            location: self.location as int,
            open: self.open_valves@,
            value: self.eventual_pressure as int,
            time: self.time_remaining as int,
        }
    }
}

/// The flow rates of the valves, by index.
pub open spec fn flow_rates(vs: Seq<ValveModel>) -> Seq<int> {
    Seq::new(vs.len(), |i: int| vs[i].flow_rate)
}

/// The indices of the non-zero entries of `flows`, in rising order.
pub open spec fn flowing(flows: Seq<int>) -> Seq<usize>
    decreases flows.len(),
{
    if flows.len() == 0 {
        Seq::empty()
    } else if flows.last() != 0 {
        flowing(flows.drop_last()).push((flows.len() - 1) as usize)
    } else {
        flowing(flows.drop_last())
    }
}

/// Whether a cave is fit for the search: a square matrix of hop counts, flow rates that
/// are not negative, and a list of valves to open that names no valve twice.
pub open spec fn cave_wf(c: CaveModel) -> bool {
    let n = c.flows.len() as int;
    &&& square(c.dist, n)
    &&& bounded(c.dist, n)
    &&& forall|i: int| 0 <= i < n ==> 0 <= #[trigger] c.flows[i] <= i32::MAX
    &&& forall|a: int| 0 <= a < c.flowable.len() ==> #[trigger] c.flowable[a] < n
    &&& forall|a: int, b: int|
        0 <= a < b < c.flowable.len() ==> #[trigger] c.flowable[a] != #[trigger] c.flowable[b]
}

/// Whether a state lies in the cave, with time that is not negative.
pub open spec fn state_wf(c: CaveModel, s: StateModel) -> bool {
    0 <= s.location < c.flows.len() && 0 <= s.time
}

/// The entries of `cands` that `open` does not hold, in their order.
pub open spec fn without(cands: Seq<usize>, open: Seq<usize>) -> Seq<usize>
    decreases cands.len(),
{
    if cands.len() == 0 {
        Seq::empty()
    } else if open.contains(cands.last()) {
        without(cands.drop_last(), open)
    } else {
        without(cands.drop_last(), open).push(cands.last())
    }
}

/// The valves that can still be opened.
pub open spec fn closed(c: CaveModel, open: Seq<usize>) -> Seq<usize> {
    without(c.flowable, open)
}

/// The time that is left after going to valve `v` and opening it.
pub open spec fn time_after(c: CaveModel, s: StateModel, v: usize) -> int {
    s.time - (c.dist@[s.location]@[v as int] + 1)
}

/// The state after going to valve `v` and opening it.
pub open spec fn step(c: CaveModel, s: StateModel, v: usize) -> StateModel {
    StateModel {
        location: v as int,
        open: s.open.push(v),
        value: s.value + c.flows[v as int] * time_after(c, s, v),
        time: time_after(c, s, v),
    }
}

/// The larger of two numbers.
pub open spec fn larger(a: int, b: int) -> int {
    if a >= b {
        a
    } else {
        b
    }
}

/// The most that can be released from state `s` on: the value already secured where no
/// time is left, else the best over the closed valves.
pub open spec fn best(c: CaveModel, s: StateModel) -> int
    decreases s.time, 1int, 0int,
{
    if s.time <= 0 {
        s.value
    } else {
        best_among(c, s, closed(c, s.open))
    }
}

/// The most that can be released from `s` by opening one of `cands` next, or by
/// opening nothing more. A valve that cannot be reached and opened in the time that is
/// left counts for nothing.
pub open spec fn best_among(c: CaveModel, s: StateModel, cands: Seq<usize>) -> int
    decreases s.time, 0int, cands.len() as int,
{
    if cands.len() == 0 {
        s.value
    } else {
        let rest = best_among(c, s, cands.drop_last());
        let left = time_after(c, s, cands.last());
        if 0 <= left < s.time {
            larger(rest, best(c, step(c, s, cands.last())))
        } else {
            rest
        }
    }
}

/// The flow rates of the valves in `cands`, added up.
pub open spec fn total(c: CaveModel, cands: Seq<usize>) -> int
    decreases cands.len(),
{
    if cands.len() == 0 {
        0
    } else {
        total(c, cands.drop_last()) + c.flows[cands.last() as int]
    }
}

/// A bound on what can be released from `s` on: every closed valve open for all the
/// time that is left.
pub open spec fn ceiling(c: CaveModel, s: StateModel) -> int {
    s.value + s.time * total(c, closed(c, s.open))
}

/// What is left of `cands` holds exactly the entries of `cands` that `open` lacks.
pub proof fn lemma_without_members(cands: Seq<usize>, open: Seq<usize>)
    ensures
        forall|v: usize| #[trigger]
            without(cands, open).contains(v) <==> (cands.contains(v) && !open.contains(v)),
        without(cands, open).len() <= cands.len(),
    decreases cands.len(),
{
    if cands.len() > 0 {
        let dl = cands.drop_last();
        let x = cands.last();
        lemma_without_members(dl, open);
        assert forall|v: usize| #[trigger]
            without(cands, open).contains(v) <==> (cands.contains(v) && !open.contains(v)) by {
            let w = without(cands, open);
            let r = without(dl, open);
            if cands.contains(v) {
                let i = choose|i: int| 0 <= i < cands.len() && cands[i] == v;
                if i < cands.len() - 1 {
                    assert(dl[i] == v);
                }
            }
            if dl.contains(v) {
                let i = choose|i: int| 0 <= i < dl.len() && dl[i] == v;
                assert(cands[i] == v);
            }
            assert(cands[cands.len() - 1] == x);
            if !open.contains(x) {
                assert(w == r.push(x));
                assert(w[w.len() - 1] == x);
                if r.contains(v) {
                    let i = choose|i: int| 0 <= i < r.len() && r[i] == v;
                    assert(w[i] == v);
                }
                if w.contains(v) {
                    let i = choose|i: int| 0 <= i < w.len() && w[i] == v;
                    if i < r.len() {
                        assert(r[i] == v);
                    }
                }
            }
        }
    }
}

/// One more valve adds its flow rate to the total.
pub proof fn lemma_total_push(c: CaveModel, cands: Seq<usize>, x: usize)
    ensures
        total(c, cands.push(x)) == total(c, cands) + c.flows[x as int],
{
    assert(cands.push(x).drop_last() =~= cands);
}

/// A total of flow rates is not negative, is no less than any of its parts, and
/// grows with the number of valves at most as `i32::MAX` each.
pub proof fn lemma_total_bounds(c: CaveModel, cands: Seq<usize>)
    requires
        forall|i: int| 0 <= i < c.flows.len() ==> 0 <= #[trigger] c.flows[i] <= i32::MAX,
        forall|a: int| 0 <= a < cands.len() ==> #[trigger] cands[a] < c.flows.len(),
    ensures
        0 <= total(c, cands) <= cands.len() * i32::MAX,
        forall|a: int| 0 <= a < cands.len() ==> c.flows[#[trigger] cands[a] as int] <= total(c, cands),
    decreases cands.len(),
{
    if cands.len() > 0 {
        let dl = cands.drop_last();
        lemma_total_bounds(c, dl);
        assert(0 <= c.flows[cands.last() as int] <= i32::MAX);
        assert forall|a: int| 0 <= a < cands.len() implies c.flows[#[trigger] cands[a] as int]
            <= total(c, cands) by {
            if a < cands.len() - 1 {
                assert(dl[a] == cands[a]);
            }
        }
        assert(cands.len() * i32::MAX == dl.len() * i32::MAX + i32::MAX) by (nonlinear_arith)
            requires
                cands.len() == dl.len() + 1,
        ;
    }
}

/// Opening a closed valve takes its flow rate, once, out of what the closed valves add
/// up to.
pub proof fn lemma_total_after_open(c: CaveModel, cands: Seq<usize>, open: Seq<usize>, v: usize)
    requires
        forall|a: int, b: int| 0 <= a < b < cands.len() ==> #[trigger] cands[a] != #[trigger] cands[b],
    ensures
        total(c, without(cands, open.push(v))) == total(c, without(cands, open)) - if without(
            cands,
            open,
        ).contains(v) {
            c.flows[v as int]
        } else {
            0
        },
    decreases cands.len(),
{
    if cands.len() > 0 {
        let dl = cands.drop_last();
        let x = cands.last();
        let more = open.push(v);
        lemma_total_after_open(c, dl, open, v);
        lemma_without_members(dl, open);
        lemma_without_members(cands, open);
        assert(more[more.len() - 1] == v);
        assert(more.contains(v));
        assert(cands[cands.len() - 1] == x);
        assert(cands.contains(x));
        assert forall|y: usize| more.contains(y) <==> (open.contains(y) || y == v) by {
            if open.contains(y) {
                let i = choose|i: int| 0 <= i < open.len() && open[i] == y;
                assert(more[i] == y);
            }
            if more.contains(y) {
                let i = choose|i: int| 0 <= i < more.len() && more[i] == y;
                if i < open.len() {
                    assert(open[i] == y);
                }
            }
        }
        if open.contains(x) {
        } else if x == v {
            if dl.contains(v) {
                let i = choose|i: int| 0 <= i < dl.len() && dl[i] == v;
                assert(cands[i] == v);
            }
            lemma_total_push(c, without(dl, open), x);
        } else {
            lemma_total_push(c, without(dl, open), x);
            lemma_total_push(c, without(dl, more), x);
        }
    }
}

/// After a step the ceiling is no higher than before, and the value secured is below it.
pub proof fn lemma_step_ceiling(c: CaveModel, s: StateModel, v: usize)
    requires
        cave_wf(c),
        state_wf(c, s),
        closed(c, s.open).contains(v),
        0 <= time_after(c, s, v) < s.time,
    ensures
        state_wf(c, step(c, s, v)),
        s.value <= step(c, s, v).value <= ceiling(c, step(c, s, v)) <= ceiling(c, s),
{
    let sum = total(c, closed(c, s.open));
    let f = c.flows[v as int];
    let left = time_after(c, s, v);
    lemma_without_members(c.flowable, s.open);
    lemma_without_members(c.flowable, s.open.push(v));
    lemma_total_after_open(c, c.flowable, s.open, v);
    let cl = closed(c, s.open);
    let i = choose|i: int| 0 <= i < cl.len() && cl[i] == v;
    assert forall|a: int| 0 <= a < cl.len() implies #[trigger] cl[a] < c.flows.len() by {
        assert(cl.contains(cl[a]));
        let b = choose|b: int| 0 <= b < c.flowable.len() && c.flowable[b] == cl[a];
    }
    lemma_total_bounds(c, cl);
    assert(cl[i] == v);
    assert(0 <= f <= sum);
    let cl2 = closed(c, s.open.push(v));
    assert forall|a: int| 0 <= a < cl2.len() implies #[trigger] cl2[a] < c.flows.len() by {
        assert(cl2.contains(cl2[a]));
        let b = choose|b: int| 0 <= b < c.flowable.len() && c.flowable[b] == cl2[a];
    }
    lemma_total_bounds(c, cl2);
    assert(total(c, cl2) == sum - f);
    assert(f * left >= 0) by (nonlinear_arith)
        requires
            f >= 0,
            left >= 0,
    ;
    assert(left * (sum - f) >= 0) by (nonlinear_arith)
        requires
            sum - f >= 0,
            left >= 0,
    ;
    assert(f * left + left * (sum - f) == left * sum) by (nonlinear_arith);
    assert(left * sum <= s.time * sum) by (nonlinear_arith)
        requires
            0 <= left <= s.time,
            sum >= 0,
    ;
}

/// What can be released from `s` on lies between the value secured and the ceiling.
pub proof fn lemma_best_bounds(c: CaveModel, s: StateModel)
    requires
        cave_wf(c),
        state_wf(c, s),
    ensures
        s.value <= best(c, s) <= ceiling(c, s),
    decreases s.time, 1int, 0int,
{
    let cl = closed(c, s.open);
    assert forall|a: int| 0 <= a < cl.len() implies #[trigger] cl[a] < c.flows.len() by {
        lemma_without_members(c.flowable, s.open);
        assert(cl.contains(cl[a]));
        let b = choose|b: int| 0 <= b < c.flowable.len() && c.flowable[b] == cl[a];
    }
    lemma_total_bounds(c, cl);
    assert(s.time * total(c, cl) >= 0) by (nonlinear_arith)
        requires
            s.time >= 0,
            total(c, cl) >= 0,
    ;
    if s.time > 0 {
        lemma_best_among_bounds(c, s, cl, cl.len() as int);
        assert(cl.take(cl.len() as int) =~= cl);
    }
}

/// The same bounds for the best over the first `k` of the candidates.
pub proof fn lemma_best_among_bounds(c: CaveModel, s: StateModel, cands: Seq<usize>, k: int)
    requires
        cave_wf(c),
        state_wf(c, s),
        0 <= k <= cands.len(),
        forall|a: int| 0 <= a < cands.len() ==> closed(c, s.open).contains(#[trigger] cands[a]),
        s.value <= ceiling(c, s),
    ensures
        s.value <= best_among(c, s, cands.take(k)) <= ceiling(c, s),
    decreases s.time, 0int, k,
{
    if k > 0 {
        let part = cands.take(k);
        assert(part.drop_last() =~= cands.take(k - 1));
        assert(part.last() == cands[k - 1]);
        lemma_best_among_bounds(c, s, cands, k - 1);
        let v = part.last();
        if 0 <= time_after(c, s, v) < s.time {
            lemma_step_ceiling(c, s, v);
            lemma_best_bounds(c, step(c, s, v));
        }
    }
}

/// Tests whether `items` holds `x`.
pub fn holds(items: &Vec<usize>, x: usize) -> (r: bool)
    ensures
        r == items@.contains(x),
{
    let mut i: usize = 0;
    while i < items.len()
        invariant
            i <= items@.len(),
            forall|k: int| 0 <= k < i ==> items@[k] != x,
        decreases items@.len() - i,
    {
        if items[i] == x {
            return true;
        }
        i += 1;
    }
    false
}

/// Picks from `cands` the entries that `open` does not hold.
pub fn pick_without(cands: &Vec<usize>, open: &Vec<usize>) -> (r: Vec<usize>)
    ensures
        r@ == without(cands@, open@),
{
    let mut out: Vec<usize> = Vec::new();
    let mut i: usize = 0;
    while i < cands.len()
        invariant
            i <= cands@.len(),
            out@ == without(cands@.take(i as int), open@),
        decreases cands@.len() - i,
    {
        assert(cands@.take(i + 1).drop_last() =~= cands@.take(i as int));
        assert(cands@.take(i + 1).last() == cands@[i as int]);
        if !holds(open, cands[i]) {
            out.push(cands[i]);
        }
        i += 1;
    }
    assert(cands@.take(i as int) =~= cands@);
    out
}

impl Cave {
    /// Whether the cave is fit for the search.
    pub open spec fn wf(&self) -> bool {
        cave_wf(self@)
    }

    /// The minutes it takes to walk from one valve to another.
    pub fn travel_time(&self, from: usize, to: usize) -> (r: i32)
        requires
            self.wf(),
            from < self.valves@.len(),
            to < self.valves@.len(),
        ensures
            r == self@.dist@[from as int]@[to as int],
            0 <= r <= crate::graph::FAR,
    {
        assert(self.adj@[from as int]@.len() == self.valves@.len());
        self.adj[from][to]
    }

    /// The valves with a flow that are not open in `state`, in the order of the cave.
    pub fn openable_valves(&self, state: &State) -> (r: Vec<usize>)
        ensures
            r@ == closed(self@, state@.open),
    {
        pick_without(&self.flowable_valves, &state.open_valves)
    }
}

/// Copies a list of valve indices and adds one more at its end.
pub fn with_opened(open: &Vec<usize>, v: usize) -> (r: Vec<usize>)
    ensures
        r@ == open@.push(v),
{
    let mut out: Vec<usize> = Vec::new();
    let mut i: usize = 0;
    while i < open.len()
        invariant
            i <= open@.len(),
            out@ == open@.take(i as int),
        decreases open@.len() - i,
    {
        out.push(open[i]);
        assert(out@ =~= open@.take(i + 1));
        i += 1;
    }
    assert(open@.take(i as int) =~= open@);
    out.push(v);
    out
}

/// Finds the most pressure that can be released from `state` on.
pub fn max_pressure(cave: &Cave, state: State) -> (r: i64)
    requires
        cave.wf(),
        state_wf(cave@, state@),
        ceiling(cave@, state@) <= i64::MAX,
    ensures
        r == best(cave@, state@),
    decreases state.time_remaining,
{
    if state.time_remaining == 0 {
        return state.eventual_pressure;
    }
    let ghost c = cave@;
    let ghost s = state@;
    let cands = cave.openable_valves(&state);
    let mut top: i64 = state.eventual_pressure;
    let mut idx: usize = 0;
    proof {
        lemma_best_bounds(c, s);
        lemma_without_members(c.flowable, s.open);
    }
    while idx < cands.len()
        invariant
            c == cave@,
            s == state@,
            cave.wf(),
            state_wf(c, s),
            s.time > 0,
            ceiling(c, s) <= i64::MAX,
            s.value <= ceiling(c, s),
            cands@ == closed(c, s.open),
            idx <= cands@.len(),
            top == best_among(c, s, cands@.take(idx as int)),
        decreases cands@.len() - idx,
    {
        let v: usize = cands[idx];
        proof {
            assert(cands@.take(idx + 1).drop_last() =~= cands@.take(idx as int));
            assert(cands@.take(idx + 1).last() == v);
            lemma_without_members(c.flowable, s.open);
            assert(cands@.contains(v));
            let b = choose|b: int| 0 <= b < c.flowable.len() && c.flowable[b] == v;
            assert(v < c.flows.len());
            assert(c.flows.len() == cave.valves@.len());
        }
        let minutes: i32 = cave.travel_time(state.location, v) + 1;
        let left: i32 = state.time_remaining - minutes;
        if left >= 0 {
            proof {
                lemma_step_ceiling(c, s, v);
                assert(c.flows[v as int] == cave.valves@[v as int].flow_rate);
                assert(0 <= c.flows[v as int] <= i32::MAX);
                assert(c.flows[v as int] * left <= 0x7fff_ffff * 0x7fff_ffff) by (nonlinear_arith)
                    requires
                        0 <= c.flows[v as int] <= 0x7fff_ffff,
                        0 <= left <= 0x7fff_ffff,
                ;
                assert(c.flows[v as int] * left >= 0) by (nonlinear_arith)
                    requires
                        0 <= c.flows[v as int],
                        0 <= left,
                ;
            }
            let gain: i64 = (cave.valves[v].flow_rate as i64) * (left as i64);
            let child = State {
                location: v,
                open_valves: with_opened(&state.open_valves, v),
                eventual_pressure: state.eventual_pressure + gain,
                time_remaining: left,
            };
            assert(child@ == step(c, s, v));
            let got: i64 = max_pressure(cave, child);
            if got > top {
                top = got;
            }
        }
        idx += 1;
    }
    assert(cands@.take(idx as int) =~= cands@);
    top
}

/// The most valves that a cave may hold for the search to stay within `i64`.
pub const MAX_VALVES: usize = 0x3ff_ffff;

/// Whether a list of valves can be compiled: every tunnel leads to a valve of the
/// list, no flow rate is negative, and the valves are not too many.
pub open spec fn well_formed(vs: Seq<ValveModel>) -> bool {
    &&& resolves(vs)
    &&& forall|i: int| 0 <= i < vs.len() ==> (#[trigger] vs[i]).flow_rate >= 0
    &&& vs.len() <= MAX_VALVES
}

/// Whether a text describes valves that can be compiled.
pub open spec fn well_formed_input(s: Seq<u8>) -> bool {
    all_parse(lines(s)) && well_formed(parsed_valves(lines(s)))
}

/// Whether `c` is the cave of the valves `vs`: their flow rates, the valves with a flow
/// in rising order, and the hop counts along their tunnels.
pub open spec fn compiled_from(vs: Seq<ValveModel>, c: CaveModel) -> bool {
    &&& c.flows == flow_rates(vs)
    &&& c.flowable == flowing(c.flows)
    &&& is_hop_matrix(edge_list(vs), vs.len() as int, c.dist)
}

/// Whether `c` is the cave that the text `s` describes: that of its valves, sorted by
/// label.
pub open spec fn describes(s: Seq<u8>, c: CaveModel) -> bool {
    exists|vs: Seq<ValveModel>| #[trigger]
        is_sorted_copy(parsed_valves(lines(s)), vs) && compiled_from(vs, c)
}

/// The state in which a search starts: at the first valve, with nothing open.
pub open spec fn start(open: Seq<usize>, time: int) -> StateModel {
    StateModel { location: 0, open, value: 0, time }
}

/// The valves with a flow are named in rising order, each once, and are valves.
pub proof fn lemma_flowing(flows: Seq<int>)
    requires
        flows.len() <= usize::MAX,
    ensures
        flowing(flows).len() <= flows.len(),
        forall|a: int| 0 <= a < flowing(flows).len() ==> #[trigger] flowing(flows)[a] < flows.len(),
        forall|a: int, b: int|
            0 <= a < b < flowing(flows).len() ==> #[trigger] flowing(flows)[a] < #[trigger] flowing(
                flows,
            )[b],
    decreases flows.len(),
{
    if flows.len() > 0 {
        let f = flowing(flows);
        let r = flowing(flows.drop_last());
        lemma_flowing(flows.drop_last());
        assert forall|a: int, b: int| 0 <= a < b < f.len() implies #[trigger] f[a] < #[trigger] f[b] by {
            if b < r.len() {
                assert(r[a] < r[b]);
            } else {
                assert(r[a] < flows.len() - 1);
            }
        }
    }
}

/// Sorting keeps a list of valves fit to be compiled.
pub proof fn lemma_sorted_keeps(src: Seq<ValveModel>, out: Seq<ValveModel>)
    requires
        is_sorted_copy(src, out),
        well_formed(src),
    ensures
        well_formed(out),
{
    let p = choose|p: Seq<int>| #[trigger] arranges(p, src, out);
    assert forall|i: int, c: int| 0 <= i < out.len() && 0 <= c < out[i].connections.len() implies label_index(
        out,
        #[trigger] out[i].connections[c],
    ) >= 0 by {
        let label = out[i].connections[c];
        assert(0 <= p[i] < src.len() && out[i] == src[p[i]]);
        assert(label == src[p[i]].connections[c]);
        let j = label_index(src, label);
        lemma_label_index(src, label);
        assert(placed(p, j));
        let t = choose|t: int| 0 <= t < p.len() && #[trigger] p[t] == j;
        assert(out[t] == src[p[t]]);
        lemma_label_index(out, label);
    }
    assert forall|i: int| 0 <= i < out.len() implies (#[trigger] out[i]).flow_rate >= 0 by {
        assert(0 <= p[i] < src.len() && out[i] == src[p[i]]);
    }
}

/// Tests whether a list of valves can be compiled.
pub fn check_valves(valves: &Vec<Valve>) -> (r: bool)
    ensures
        r == well_formed(models(valves@)),
{
    let ghost vs = models(valves@);
    let n: usize = valves.len();
    if n > MAX_VALVES {
        return false;
    }
    let mut i: usize = 0;
    while i < n
        invariant
            vs == models(valves@),
            n == valves@.len(),
            i <= n,
            forall|a: int| 0 <= a < i ==> (#[trigger] vs[a]).flow_rate >= 0,
            forall|a: int, c: int|
                0 <= a < i && 0 <= c < vs[a].connections.len() ==> label_index(
                    vs,
                    #[trigger] vs[a].connections[c],
                ) >= 0,
        decreases n - i,
    {
        if valves[i].flow_rate < 0 {
            assert(vs[i as int].flow_rate < 0);
            return false;
        }
        let m: usize = valves[i].connections.len();
        let mut c: usize = 0;
        while c < m
            invariant
                vs == models(valves@),
                i < n,
                n == valves@.len(),
                m == valves@[i as int].connections@.len(),
                c <= m,
                forall|b: int|
                    0 <= b < c ==> label_index(vs, #[trigger] vs[i as int].connections[b]) >= 0,
            decreases m - c,
        {
            assert(vs[i as int].connections[c as int] == valves@[i as int].connections@[c as int]@);
            if find_label(valves, &valves[i].connections[c]).is_none() {
                return false;
            }
            c += 1;
        }
        i += 1;
    }
    true
}

/// Tests whether a text describes valves that can be compiled.
pub fn is_well_formed(input: &str) -> (r: bool)
    ensures
        r == well_formed_input(input.spec_bytes()),
{
    match parse_lines(input.as_bytes()) {
        Some(valves) => check_valves(&valves),
        None => false,
    }
}

/// Lists the valves with a flow, in rising order.
pub fn flowable_indices(valves: &Vec<Valve>) -> (r: Vec<usize>)
    ensures
        r@ == flowing(flow_rates(models(valves@))),
{
    let ghost flows = flow_rates(models(valves@));
    let mut out: Vec<usize> = Vec::new();
    let mut i: usize = 0;
    while i < valves.len()
        invariant
            flows == flow_rates(models(valves@)),
            i <= valves@.len(),
            out@ == flowing(flows.take(i as int)),
        decreases valves@.len() - i,
    {
        assert(flows.take(i + 1).drop_last() =~= flows.take(i as int));
        assert(flows.take(i + 1).last() == valves@[i as int].flow_rate);
        if valves[i].flow_rate != 0 {
            out.push(i);
        }
        i += 1;
    }
    assert(flows.take(i as int) =~= flows);
    out
}

/// Compiles a list of valves into a cave: the valves with a flow, and the hop counts
/// between all valves.
pub fn compile(valves: Vec<Valve>) -> (cave: Cave)
    requires
        well_formed(models(valves@)),
    ensures
        cave.wf(),
        cave.valves == valves,
        compiled_from(models(valves@), cave@),
{
    let flowable_valves = flowable_indices(&valves);
    let tunnels = edges(&valves);
    let adj = min_dists(tunnels, valves.len());
    proof {
        lemma_flowing(flow_rates(models(valves@)));
    }
    Cave { valves, flowable_valves, adj }
}

/// Reads the valves of a text and compiles them into a cave.
pub fn build_cave(input: &str) -> (cave: Cave)
    requires
        well_formed_input(input.spec_bytes()),
    ensures
        cave.wf(),
        cave.valves@.len() <= MAX_VALVES,
        is_sorted_copy(parsed_valves(lines(input.spec_bytes())), models(cave.valves@)),
        compiled_from(models(cave.valves@), cave@),
        describes(input.spec_bytes(), cave@),
{
    let valves = parse_input(input);
    proof {
        lemma_sorted_keeps(parsed_valves(lines(input.spec_bytes())), models(valves@));
    }
    compile(valves)
}

/// Without an open valve, every valve with a flow can be opened.
pub proof fn lemma_all_closed(cands: Seq<usize>)
    ensures
        without(cands, Seq::empty()) == cands,
    decreases cands.len(),
{
    if cands.len() > 0 {
        lemma_all_closed(cands.drop_last());
        assert(cands.drop_last().push(cands.last()) =~= cands);
    }
}

/// The valves that are left add up to no more than all of them.
pub proof fn lemma_total_without(c: CaveModel, cands: Seq<usize>, open: Seq<usize>)
    requires
        forall|i: int| 0 <= i < c.flows.len() ==> 0 <= #[trigger] c.flows[i] <= i32::MAX,
        forall|a: int| 0 <= a < cands.len() ==> #[trigger] cands[a] < c.flows.len(),
    ensures
        0 <= total(c, without(cands, open)) <= total(c, cands),
    decreases cands.len(),
{
    if cands.len() > 0 {
        let dl = cands.drop_last();
        lemma_total_without(c, dl, open);
        assert(0 <= c.flows[cands[cands.len() - 1] as int]);
        if !open.contains(cands.last()) {
            lemma_total_push(c, without(dl, open), cands.last());
        }
    }
}

/// In a cave with no more than `MAX_VALVES` valves to open, a search that starts with
/// a budget of up to 31 minutes stays within half of `i64`.
pub proof fn lemma_start_ceiling(c: CaveModel, open: Seq<usize>, time: int)
    requires
        cave_wf(c),
        c.flowable.len() <= MAX_VALVES,
        0 <= time <= 31,
    ensures
        0 <= ceiling(c, start(open, time)) <= 0x3fff_ffff_ffff_ffff,
{
    lemma_total_without(c, c.flowable, open);
    lemma_total_bounds(c, c.flowable);
    let sum = total(c, without(c.flowable, open));
    assert(c.flowable.len() * i32::MAX <= 0x3ff_ffff * 0x7fff_ffff) by (nonlinear_arith)
        requires
            c.flowable.len() <= 0x3ff_ffff,
    ;
    assert(0 <= time * sum <= 31 * (0x3ff_ffff * 0x7fff_ffff)) by (nonlinear_arith)
        requires
            0 <= time <= 31,
            0 <= sum <= 0x3ff_ffff * 0x7fff_ffff,
    ;
}

/// The most pressure one agent can release in 30 minutes, starting at the first valve.
pub fn part1(input: &str) -> (r: i64)
    requires
        well_formed_input(input.spec_bytes()),
    ensures
        exists|c: CaveModel| #[trigger]
            describes(input.spec_bytes(), c) && r == best(c, start(Seq::empty(), 30)),
{
    let cave = build_cave(input);
    proof {
        lemma_flowing(cave@.flows);
    }
    if cave.valves.len() == 0 {
        assert(cave@.flowable.len() == 0);
        return 0;
    }
    let initial_state = State {
        location: 0,
        open_valves: Vec::new(),
        eventual_pressure: 0,
        time_remaining: 30,
    };
    assert(initial_state@ == start(Seq::empty(), 30));
    proof {
        lemma_start_ceiling(cave@, Seq::empty(), 30);
    }
    max_pressure(&cave, initial_state)
}

/// The lists of a vector of lists, as sequences.
pub open spec fn lists_of(v: Seq<Vec<usize>>) -> Seq<Seq<usize>> {
    Seq::new(v.len(), |i: int| v[i]@)
}

/// Each list of `ls` with `x` put in front.
pub open spec fn with_first(x: usize, ls: Seq<Seq<usize>>) -> Seq<Seq<usize>> {
    Seq::new(ls.len(), |i: int| seq![x] + ls[i])
}

/// The ways to choose `k` of the items of `s`, each in the order of `s`: first those
/// that take the first item, then those that leave it out.
pub open spec fn combos(s: Seq<usize>, k: nat) -> Seq<Seq<usize>>
    decreases s.len(),
{
    if k == 0 {
        seq![Seq::empty()]
    } else if s.len() == 0 {
        Seq::empty()
    } else {
        with_first(s[0], combos(s.skip(1), (k - 1) as nat)) + combos(s.skip(1), k)
    }
}

/// There is a way to choose `k` items wherever there are at least `k`.
pub proof fn lemma_combos_some(s: Seq<usize>, k: nat)
    requires
        k <= s.len(),
    ensures
        combos(s, k).len() >= 1,
    decreases s.len(),
{
    if k > 0 {
        lemma_combos_some(s.skip(1), (k - 1) as nat);
    }
}

/// Lists the ways to choose `k` of the items with `Itertools::combinations`, which
/// walks the choices in the order of the positions chosen, the first position moving
/// last. The contract claims that the result is `combos` of the items. None of this is
/// proved here.
#[verifier::external_body]
fn combinations(items: &Vec<usize>, k: usize) -> (r: Vec<Vec<usize>>)
    ensures
        lists_of(r@) == combos(items@, k as nat),
{
    items.iter().copied().combinations(k).collect()
}

/// What two agents release together when one takes the valves of `mine` and the other
/// takes the rest, each with `time` minutes.
pub open spec fn split_value(c: CaveModel, mine: Seq<usize>, time: int) -> int {
    best(c, start(without(c.flowable, mine), time)) + best(c, start(mine, time))
}

/// The best of the given splits; 0 where there is none.
pub open spec fn best_split(c: CaveModel, splits: Seq<Seq<usize>>, time: int) -> int
    decreases splits.len(),
{
    if splits.len() == 0 {
        0
    } else if splits.len() == 1 {
        split_value(c, splits[0], time)
    } else {
        larger(best_split(c, splits.drop_last(), time), split_value(c, splits.last(), time))
    }
}

/// Finds what two agents release when they split the valves as `mine` says.
pub fn split_pressure(cave: &Cave, mine: &Vec<usize>, time_budget: i32) -> (r: i64)
    requires
        cave.wf(),
        cave.valves@.len() > 0,
        cave@.flowable.len() <= MAX_VALVES,
        0 <= time_budget <= 31,
    ensures
        r == split_value(cave@, mine@, time_budget as int),
        0 <= r,
{
    let others = pick_without(&cave.flowable_valves, mine);
    let first = State {
        location: 0,
        open_valves: others,
        eventual_pressure: 0,
        time_remaining: time_budget,
    };
    let second = State {
        location: 0,
        open_valves: pick_without(mine, &Vec::new()),
        eventual_pressure: 0,
        time_remaining: time_budget,
    };
    proof {
        lemma_all_closed(mine@);
        assert(first@ == start(without(cave@.flowable, mine@), time_budget as int));
        assert(second@ == start(mine@, time_budget as int));
        lemma_start_ceiling(cave@, first@.open, time_budget as int);
        lemma_start_ceiling(cave@, second@.open, time_budget as int);
        lemma_best_bounds(cave@, first@);
        lemma_best_bounds(cave@, second@);
    }
    let me = max_pressure(cave, first);
    let elephant = max_pressure(cave, second);
    me + elephant
}

/// Finds the most that two agents can release together, each with `time_budget`
/// minutes, over all ways to hand half of the valves with a flow to one of them. The
/// number of ways grows as the binomial coefficient of the number of such valves.
pub fn max_pressure_dual(cave: &Cave, time_budget: i32) -> (r: i64)
    requires
        cave.wf(),
        cave.valves@.len() > 0,
        cave@.flowable.len() <= MAX_VALVES,
        0 <= time_budget <= 31,
    ensures
        r == best_split(
            cave@,
            combos(cave@.flowable, (cave@.flowable.len() / 2) as nat),
            time_budget as int,
        ),
{
    let k: usize = cave.flowable_valves.len() / 2;
    let splits = combinations(&cave.flowable_valves, k);
    let ghost all = lists_of(splits@);
    proof {
        lemma_combos_some(cave@.flowable, k as nat);
        assert(all.len() == splits@.len());
        assert(all[0] == splits@[0]@);
        assert(all.take(1).len() == 1 && all.take(1)[0] == all[0]);
    }
    let mut top: i64 = split_pressure(cave, &splits[0], time_budget);
    let mut i: usize = 1;
    while i < splits.len()
        invariant
            cave.wf(),
            cave.valves@.len() > 0,
            cave@.flowable.len() <= MAX_VALVES,
            0 <= time_budget <= 31,
            all == lists_of(splits@),
            1 <= i <= splits@.len(),
            top == best_split(cave@, all.take(i as int), time_budget as int),
        decreases splits@.len() - i,
    {
        proof {
            assert(all.take(i + 1).drop_last() =~= all.take(i as int));
            assert(all.take(i + 1).last() == splits@[i as int]@);
        }
        let got: i64 = split_pressure(cave, &splits[i], time_budget);
        if got > top {
            top = got;
        }
        i += 1;
    }
    assert(all.take(i as int) =~= all);
    top
}

/// The most pressure two agents can release in 26 minutes each, both starting at the
/// first valve.
pub fn part2(input: &str) -> (r: i64)
    requires
        well_formed_input(input.spec_bytes()),
    ensures
        exists|c: CaveModel| #[trigger]
            describes(input.spec_bytes(), c) && r == best_split(
                c,
                combos(c.flowable, (c.flowable.len() / 2) as nat),
                26,
            ),
{
    let cave = build_cave(input);
    proof {
        lemma_flowing(cave@.flows);
    }
    if cave.valves.len() == 0 {
        proof {
            let c = cave@;
            assert(c.flowable.len() == 0);
            let ways = combos(c.flowable, 0);
            assert(ways.len() == 1);
            assert(ways[0] =~= Seq::<usize>::empty());
        }
        return 0;
    }
    max_pressure_dual(&cave, 26)
}

/// Where no valve has a flow, nothing is released beyond what is secured, whatever
/// the time.
pub proof fn lemma_nothing_to_open(c: CaveModel, s: StateModel)
    requires
        c.flowable.len() == 0,
    ensures
        best(c, s) == s.value,
{
}

/// With more time and no less secured, no less can be released: for one cave, one
/// location and one set of open valves, `best` does not fall when the time or the
/// value secured rises.
pub proof fn lemma_more_time(c: CaveModel, s1: StateModel, s2: StateModel)
    requires
        cave_wf(c),
        state_wf(c, s1),
        s1.location == s2.location,
        s1.open == s2.open,
        s1.value <= s2.value,
        s1.time <= s2.time,
    ensures
        best(c, s1) <= best(c, s2),
    decreases s1.time, 1int, 0int,
{
    lemma_best_bounds(c, s2);
    if s1.time > 0 {
        let cl = closed(c, s1.open);
        lemma_without_members(c.flowable, s1.open);
        lemma_more_time_among(c, s1, s2, cl, cl.len() as int);
        assert(cl.take(cl.len() as int) =~= cl);
    }
}

/// The same for the best over the first `k` of the candidates.
pub proof fn lemma_more_time_among(
    c: CaveModel,
    s1: StateModel,
    s2: StateModel,
    cands: Seq<usize>,
    k: int,
)
    requires
        cave_wf(c),
        state_wf(c, s1),
        s1.location == s2.location,
        s1.open == s2.open,
        s1.value <= s2.value,
        s1.time <= s2.time,
        0 <= k <= cands.len(),
        forall|a: int| 0 <= a < cands.len() ==> closed(c, s1.open).contains(#[trigger] cands[a]),
    ensures
        best_among(c, s1, cands.take(k)) <= best_among(c, s2, cands.take(k)),
        s2.value <= best_among(c, s2, cands.take(k)),
    decreases s1.time, 0int, k,
{
    if k > 0 {
        let part = cands.take(k);
        assert(part.drop_last() =~= cands.take(k - 1));
        assert(part.last() == cands[k - 1]);
        lemma_more_time_among(c, s1, s2, cands, k - 1);
        let v = part.last();
        lemma_without_members(c.flowable, s1.open);
        assert(closed(c, s1.open).contains(v));
        let b = choose|b: int| 0 <= b < c.flowable.len() && c.flowable[b] == v;
        assert(v < c.flows.len());
        assert(0 <= c.dist@[s1.location]@[v as int]);
        let left1 = time_after(c, s1, v);
        let left2 = time_after(c, s2, v);
        if 0 <= left1 < s1.time {
            lemma_step_ceiling(c, s1, v);
            lemma_step_ceiling(c, s2, v);
            assert(c.flows[v as int] * left1 <= c.flows[v as int] * left2) by (nonlinear_arith)
                requires
                    0 <= c.flows[v as int],
                    left1 <= left2,
            ;
            lemma_more_time(c, step(c, s1, v), step(c, s2, v));
        } else if 0 <= left2 < s2.time {
            lemma_step_ceiling(c, s2, v);
            lemma_best_bounds(c, step(c, s2, v));
        }
    }
}

/// Whether the search can go from `s` to valve `v` and open it: time is left, the valve
/// has a flow and is closed, and it can be reached and opened in time.
pub open spec fn can_step(c: CaveModel, s: StateModel, v: usize) -> bool {
    s.time > 0 && closed(c, s.open).contains(v) && 0 <= time_after(c, s, v) < s.time
}

/// The state after opening the valves of `path` one after the other.
pub open spec fn follow(c: CaveModel, s: StateModel, path: Seq<usize>) -> StateModel
    decreases path.len(),
{
    if path.len() == 0 {
        s
    } else {
        step(c, follow(c, s, path.drop_last()), path.last())
    }
}

/// Whether the search can open the valves of `path` one after the other.
pub open spec fn reachable(c: CaveModel, s: StateModel, path: Seq<usize>) -> bool
    decreases path.len(),
{
    path.len() == 0 || (reachable(c, s, path.drop_last()) && can_step(
        c,
        follow(c, s, path.drop_last()),
        path.last(),
    ))
}

/// No state that the search reaches holds a valve twice among its open valves, has
/// less secured than the state it came from, or has negative time.
pub proof fn lemma_never_twice(c: CaveModel, s: StateModel, path: Seq<usize>)
    requires
        cave_wf(c),
        state_wf(c, s),
        s.open.no_duplicates(),
        reachable(c, s, path),
    ensures
        follow(c, s, path).open.no_duplicates(),
        state_wf(c, follow(c, s, path)),
        s.value <= follow(c, s, path).value,
    decreases path.len(),
{
    if path.len() > 0 {
        let before = follow(c, s, path.drop_last());
        let v = path.last();
        lemma_never_twice(c, s, path.drop_last());
        lemma_step_ceiling(c, before, v);
        lemma_without_members(c.flowable, before.open);
        let after = before.open.push(v);
        assert forall|i: int, j: int| 0 <= i < after.len() && 0 <= j < after.len() && i != j implies after[i]
            != after[j] by {
            if i < before.open.len() && j < before.open.len() {
                assert(before.open[i] != before.open[j]);
            } else if i < before.open.len() {
                assert(before.open.contains(before.open[i]));
            } else {
                assert(before.open.contains(before.open[j]));
            }
        }
    }
}

/// Why a text gives no cave.
#[derive(Clone, Copy, Debug, PartialEq, Eq)]
pub enum CaveError {
    /// Some line describes no valve.
    Malformed,
    /// A tunnel leads to a valve that no line describes, a flow rate is negative, or
    /// the valves are too many.
    Inconsistent,
}

/// Reads the valves of a text and compiles them into a cave, or says why the text
/// gives none.
pub fn load_cave(input: &str) -> (r: Result<Cave, CaveError>)
    ensures
        match r {
            Ok(cave) => well_formed_input(input.spec_bytes()) && cave.wf() && cave.valves@.len()
                <= MAX_VALVES && describes(input.spec_bytes(), cave@),
            Err(CaveError::Malformed) => !all_parse(lines(input.spec_bytes())),
            Err(CaveError::Inconsistent) => all_parse(lines(input.spec_bytes())) && !well_formed(
                parsed_valves(lines(input.spec_bytes())),
            ),
        },
{
    let valves = match parse_lines(input.as_bytes()) {
        Some(valves) => valves,
        None => {
            return Err(CaveError::Malformed);
        },
    };
    if !check_valves(&valves) {
        return Err(CaveError::Inconsistent);
    }
    let sorted = sorted_by_id(valves);
    proof {
        lemma_sorted_keeps(parsed_valves(lines(input.spec_bytes())), models(sorted@));
    }
    Ok(compile(sorted))
}

/// Leaving out what `open` holds gives the same whenever `open` holds the same valves.
pub proof fn lemma_without_same(cands: Seq<usize>, open1: Seq<usize>, open2: Seq<usize>)
    requires
        forall|v: usize| open1.contains(v) <==> open2.contains(v),
    ensures
        without(cands, open1) == without(cands, open2),
    decreases cands.len(),
{
    if cands.len() > 0 {
        lemma_without_same(cands.drop_last(), open1, open2);
    }
}

/// What can be released depends on which valves are open, not on the order in which
/// they were opened or on how often one is named.
pub proof fn lemma_open_order(c: CaveModel, s1: StateModel, s2: StateModel)
    requires
        s1.location == s2.location,
        s1.value == s2.value,
        s1.time == s2.time,
        forall|v: usize| s1.open.contains(v) <==> s2.open.contains(v),
    ensures
        best(c, s1) == best(c, s2),
    decreases s1.time, 1int, 0int,
{
    if s1.time > 0 {
        lemma_without_same(c.flowable, s1.open, s2.open);
        lemma_open_order_among(c, s1, s2, closed(c, s1.open));
    }
}

/// The same for the best over given candidates.
pub proof fn lemma_open_order_among(c: CaveModel, s1: StateModel, s2: StateModel, cands: Seq<usize>)
    requires
        s1.location == s2.location,
        s1.value == s2.value,
        s1.time == s2.time,
        forall|v: usize| s1.open.contains(v) <==> s2.open.contains(v),
    ensures
        best_among(c, s1, cands) == best_among(c, s2, cands),
    decreases s1.time, 0int, cands.len() as int,
{
    if cands.len() > 0 {
        lemma_open_order_among(c, s1, s2, cands.drop_last());
        let v = cands.last();
        if 0 <= time_after(c, s1, v) < s1.time {
            let a = s1.open.push(v);
            let b = s2.open.push(v);
            assert forall|x: usize| a.contains(x) <==> b.contains(x) by {
                assert(a[a.len() - 1] == v && b[b.len() - 1] == v);
                if a.contains(x) && x != v {
                    let i = choose|i: int| 0 <= i < a.len() && a[i] == x;
                    assert(s1.open[i] == x);
                    assert(s1.open.contains(x));
                    assert(s2.open.contains(x));
                    let j = choose|j: int| 0 <= j < s2.open.len() && s2.open[j] == x;
                    assert(b[j] == x);
                }
                if b.contains(x) && x != v {
                    let i = choose|i: int| 0 <= i < b.len() && b[i] == x;
                    assert(s2.open[i] == x);
                    assert(s2.open.contains(x));
                    assert(s1.open.contains(x));
                    let j = choose|j: int| 0 <= j < s1.open.len() && s1.open[j] == x;
                    assert(a[j] == x);
                }
            }
            lemma_open_order(c, step(c, s1, v), step(c, s2, v));
        }
    }
}

} // verus!
