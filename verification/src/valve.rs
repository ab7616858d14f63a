//! Valve descriptions: one line of text per valve, with its label, its flow rate and
//! the labels of the valves that its tunnels lead to.

use crate::text::{
    copy_range, decimal_i32, is_alpha, is_digit, lines, parse_i32, rows_of, split_lines,
};
use itertools::Itertools;
use vstd::prelude::*;
use vstd::string::StringSliceAdditionalSpecFns;

verus! {

/// A valve as its line describes it.
#[derive(Clone, Debug)]
pub struct Valve {
    pub id: Vec<u8>,
    pub flow_rate: i32,
    pub connections: Vec<Vec<u8>>,
}

/// What a valve holds, as plain values.
pub ghost struct ValveModel {
    pub id: Seq<u8>,
    pub flow_rate: int,
    pub connections: Seq<Seq<u8>>,
}

impl View for Valve {
    type V = ValveModel;

    open spec fn view(&self) -> ValveModel {
        ValveModel {
            id: self.id@,
            flow_rate: self.flow_rate as int,
            connections: rows_of(self.connections@),
        }
    }
}

/// The models of a sequence of valves.
pub open spec fn models(vs: Seq<Valve>) -> Seq<ValveModel> {
    Seq::new(vs.len(), |i: int| vs[i]@)
}

/// Whether `tag` stands in `s` at position `at`.
pub open spec fn has_at(s: Seq<u8>, at: int, tag: Seq<u8>) -> bool {
    0 <= at && at + tag.len() <= s.len() && s.subrange(at, at + tag.len()) == tag
}

/// The end of the longest run of letters that starts at `at`.
pub open spec fn alpha_end(s: Seq<u8>, at: int) -> int
    decreases s.len() - at,
{
    if at < 0 || at >= s.len() {
        at
    } else if is_alpha(s[at]) {
        alpha_end(s, at + 1)
    } else {
        at
    }
}

/// The end of the longest run of digits that starts at `at`.
pub open spec fn digit_end(s: Seq<u8>, at: int) -> int
    decreases s.len() - at,
{
    if at < 0 || at >= s.len() {
        at
    } else if is_digit(s[at]) {
        digit_end(s, at + 1)
    } else {
        at
    }
}

/// The position behind a plus or minus sign at `at`, or `at` where there is none.
pub open spec fn sign_end(s: Seq<u8>, at: int) -> int {
    if 0 <= at < s.len() && (s[at] == 45 || s[at] == 43) {
        at + 1
    } else {
        at
    }
}

/// The position behind a letter `s` at `at`, or `at` where there is none.
pub open spec fn plural_end(s: Seq<u8>, at: int) -> int {
    if 0 <= at < s.len() && s[at] == 115 {
        at + 1
    } else {
        at
    }
}

/// The text "Valve ".
pub open spec fn tag_valve() -> Seq<u8> {
    seq![86u8, 97u8, 108u8, 118u8, 101u8, 32u8]
}

/// The text " has flow rate=".
pub open spec fn tag_rate() -> Seq<u8> {
    seq![
        32u8, 104u8, 97u8, 115u8, 32u8, 102u8, 108u8, 111u8, 119u8, 32u8, 114u8, 97u8, 116u8,
        101u8, 61u8,
    ]
}

/// The text "; tunnel".
pub open spec fn tag_tunnel() -> Seq<u8> {
    seq![59u8, 32u8, 116u8, 117u8, 110u8, 110u8, 101u8, 108u8]
}

/// The text " lead".
pub open spec fn tag_lead() -> Seq<u8> {
    seq![32u8, 108u8, 101u8, 97u8, 100u8]
}

/// The text " to valve".
pub open spec fn tag_to_valve() -> Seq<u8> {
    seq![32u8, 116u8, 111u8, 32u8, 118u8, 97u8, 108u8, 118u8, 101u8]
}

/// The text ", ".
pub open spec fn tag_comma() -> Seq<u8> {
    seq![44u8, 32u8]
}

/// Where the phrase that joins a valve to its neighbours ends, if it starts at `at`:
/// "; tunnel", " lead", " to valve", each with or without an `s`, then a blank.
pub open spec fn connector_end(s: Seq<u8>, at: int) -> Option<int> {
    if !has_at(s, at, tag_tunnel()) {
        None
    } else {
        let a = plural_end(s, at + 8);
        if !has_at(s, a, tag_lead()) {
            None
        } else {
            let b = plural_end(s, a + 5);
            if !has_at(s, b, tag_to_valve()) {
                None
            } else {
                let c = plural_end(s, b + 9);
                if 0 <= c < s.len() && s[c] == 32 {
                    Some(c + 1)
                } else {
                    None
                }
            }
        }
    }
}

/// The end of the first joining phrase that starts at `from` or later.
pub open spec fn find_connector(s: Seq<u8>, from: int) -> Option<int>
    decreases s.len() - from,
{
    if from < 0 || from >= s.len() {
        None
    } else {
        match connector_end(s, from) {
            Some(e) => Some(e),
            None => find_connector(s, from + 1),
        }
    }
}

/// A run of letters ends at or after its start, within the text.
pub proof fn lemma_alpha_end(s: Seq<u8>, at: int)
    requires
        0 <= at <= s.len(),
    ensures
        at <= alpha_end(s, at) <= s.len(),
    decreases s.len() - at,
{
    if at < s.len() && is_alpha(s[at]) {
        lemma_alpha_end(s, at + 1);
    }
}

/// A run of digits ends at or after its start, within the text.
pub proof fn lemma_digit_end(s: Seq<u8>, at: int)
    requires
        0 <= at <= s.len(),
    ensures
        at <= digit_end(s, at) <= s.len(),
    decreases s.len() - at,
{
    if at < s.len() && is_digit(s[at]) {
        lemma_digit_end(s, at + 1);
    }
}

/// Whether another label follows the one that ends at `e`: a comma, a blank, a letter.
pub open spec fn more_labels(s: Seq<u8>, e: int) -> bool {
    has_at(s, e, tag_comma()) && e + 2 < s.len() && is_alpha(s[e + 2])
}

/// The labels of a list that starts at `at`, separated by a comma and a blank.
pub open spec fn labels_from(s: Seq<u8>, at: int) -> Seq<Seq<u8>>
    decreases s.len() - at,
    via labels_from_terminates
{
    if at < 0 || at >= s.len() {
        Seq::empty()
    } else {
        let e = alpha_end(s, at);
        if more_labels(s, e) {
            seq![s.subrange(at, e)] + labels_from(s, e + 2)
        } else {
            seq![s.subrange(at, e)]
        }
    }
}

/// Shows that the recursion above ends.
#[via_fn]
proof fn labels_from_terminates(s: Seq<u8>, at: int) {
    if 0 <= at < s.len() {
        lemma_alpha_end(s, at);
    }
}

/// Where the list of labels that starts at `at` ends.
pub open spec fn labels_end(s: Seq<u8>, at: int) -> int
    decreases s.len() - at,
    via labels_end_terminates
{
    if at < 0 || at >= s.len() {
        at
    } else {
        let e = alpha_end(s, at);
        if more_labels(s, e) {
            labels_end(s, e + 2)
        } else {
            e
        }
    }
}

/// Shows that the recursion above ends.
#[via_fn]
proof fn labels_end_terminates(s: Seq<u8>, at: int) {
    if 0 <= at < s.len() {
        lemma_alpha_end(s, at);
    }
}

/// The valve that a line describes, with the position where the description ends.
///
/// A description is "Valve ", a label of letters, " has flow rate=", a decimal number
/// that fits in `i32`, then anything up to the first joining phrase, and after that
/// phrase one or more labels.
pub open spec fn parsed_valve(s: Seq<u8>) -> Option<(int, ValveModel)> {
    let b = alpha_end(s, 6);
    let c = b + 15;
    let d = digit_end(s, sign_end(s, c));
    if !has_at(s, 0, tag_valve()) || b == 6 || !has_at(s, b, tag_rate()) {
        None
    } else {
        match decimal_i32(s.subrange(c, d)) {
            None => None,
            Some(rate) => match find_connector(s, d) {
                None => None,
                Some(f) => if f >= s.len() || !is_alpha(s[f]) {
                    None
                } else {
                    Some(
                        (
                            labels_end(s, f),
                            ValveModel {
                                id: s.subrange(6, b),
                                flow_rate: rate as int,
                                connections: labels_from(s, f),
                            },
                        ),
                    )
                },
            },
        }
    }
}

/// Tests whether `tag` stands in `s` at `at`.
pub fn starts_at(s: &[u8], at: usize, tag: &Vec<u8>) -> (r: bool)
    requires
        at <= s@.len(),
    ensures
        r == has_at(s@, at as int, tag@),
{
    let n: usize = s.len();
    let m: usize = tag.len();
    if n - at < m {
        return false;
    }
    let mut i: usize = 0;
    while i < m
        invariant
            at + m <= n,
            n == s@.len(),
            m == tag@.len(),
            i <= m,
            forall|a: int| 0 <= a < i ==> s@[at + a] == tag@[a],
        decreases m - i,
    {
        if s[at + i] != tag[i] {
            assert(s@.subrange(at as int, at + m)[i as int] != tag@[i as int]);
            return false;
        }
        i += 1;
    }
    assert(s@.subrange(at as int, at + m) =~= tag@);
    true
}

/// Tests whether a byte is a letter.
pub fn alpha(b: u8) -> (r: bool)
    ensures
        r == is_alpha(b),
{
    (65 <= b && b <= 90) || (97 <= b && b <= 122)
}

/// Finds the end of the run of letters that starts at `at`.
pub fn alpha_run(s: &[u8], at: usize) -> (e: usize)
    requires
        at <= s@.len(),
    ensures
        e == alpha_end(s@, at as int),
        at <= e <= s@.len(),
{
    let n: usize = s.len();
    let mut e: usize = at;
    while e < n && alpha(s[e])
        invariant
            n == s@.len(),
            at <= e <= n,
            alpha_end(s@, at as int) == alpha_end(s@, e as int),
        decreases n - e,
    {
        e += 1;
    }
    e
}

/// Finds the end of the run of digits that starts at `at`.
pub fn digit_run(s: &[u8], at: usize) -> (e: usize)
    requires
        at <= s@.len(),
    ensures
        e == digit_end(s@, at as int),
        at <= e <= s@.len(),
{
    let n: usize = s.len();
    let mut e: usize = at;
    while e < n && 48 <= s[e] && s[e] <= 57
        invariant
            n == s@.len(),
            at <= e <= n,
            digit_end(s@, at as int) == digit_end(s@, e as int),
        decreases n - e,
    {
        e += 1;
    }
    e
}

/// Steps over a letter `s` at `at`, if one stands there.
pub fn skip_plural(s: &[u8], at: usize) -> (e: usize)
    requires
        at <= s@.len(),
    ensures
        e == plural_end(s@, at as int),
        at <= e <= s@.len(),
{
    if at < s.len() && s[at] == 115 {
        at + 1
    } else {
        at
    }
}

/// Matches the joining phrase at `at`.
pub fn connector_at(s: &[u8], at: usize) -> (r: Option<usize>)
    requires
        at <= s@.len(),
    ensures
        r is Some == connector_end(s@, at as int) is Some,
        r is Some ==> r.unwrap() == connector_end(s@, at as int).unwrap() && at < r.unwrap()
            <= s@.len(),
{
    let n: usize = s.len();
    let tunnel: Vec<u8> = vec![59u8, 32u8, 116u8, 117u8, 110u8, 110u8, 101u8, 108u8];
    let lead: Vec<u8> = vec![32u8, 108u8, 101u8, 97u8, 100u8];
    let to_valve: Vec<u8> = vec![32u8, 116u8, 111u8, 32u8, 118u8, 97u8, 108u8, 118u8, 101u8];
    assert(tunnel@ =~= tag_tunnel());
    assert(lead@ =~= tag_lead());
    assert(to_valve@ =~= tag_to_valve());
    assert(tag_tunnel().len() == 8 && tag_lead().len() == 5 && tag_to_valve().len() == 9);
    if !starts_at(s, at, &tunnel) {
        return None;
    }
    let a: usize = skip_plural(s, at + 8);
    if !starts_at(s, a, &lead) {
        return None;
    }
    let b: usize = skip_plural(s, a + 5);
    if !starts_at(s, b, &to_valve) {
        return None;
    }
    let c: usize = skip_plural(s, b + 9);
    if c < n && s[c] == 32 {
        Some(c + 1)
    } else {
        None
    }
}

/// Searches for the first joining phrase at `from` or later.
pub fn search_connector(s: &[u8], from: usize) -> (r: Option<usize>)
    requires
        from <= s@.len(),
    ensures
        r is Some == find_connector(s@, from as int) is Some,
        r is Some ==> r.unwrap() == find_connector(s@, from as int).unwrap() && from < r.unwrap()
            <= s@.len(),
{
    let n: usize = s.len();
    let mut p: usize = from;
    while p < n
        invariant
            n == s@.len(),
            from <= p <= n,
            find_connector(s@, from as int) == find_connector(s@, p as int),
        decreases n - p,
    {
        match connector_at(s, p) {
            Some(e) => {
                return Some(e);
            },
            None => {},
        }
        p += 1;
    }
    None
}

/// Reads the list of labels that starts at `at`, where a letter stands.
pub fn parse_labels(s: &[u8], at: usize) -> (r: (Vec<Vec<u8>>, usize))
    requires
        at < s@.len(),
        is_alpha(s@[at as int]),
    ensures
        rows_of(r.0@) == labels_from(s@, at as int),
        r.1 == labels_end(s@, at as int),
        r.1 <= s@.len(),
{
    let n: usize = s.len();
    let comma: Vec<u8> = vec![44u8, 32u8];
    assert(comma@ =~= tag_comma());
    let mut out: Vec<Vec<u8>> = Vec::new();
    let mut cur: usize = at;
    loop
        invariant
            n == s@.len(),
            comma@ == tag_comma(),
            at <= cur < n,
            is_alpha(s@[cur as int]),
            labels_from(s@, at as int) == rows_of(out@) + labels_from(s@, cur as int),
            labels_end(s@, at as int) == labels_end(s@, cur as int),
        decreases n - cur,
    {
        let e: usize = alpha_run(s, cur);
        proof {
            lemma_alpha_end(s@, cur + 1);
        }
        let label = copy_range(s, cur, e);
        let ghost before = rows_of(out@);
        out.push(label);
        assert(rows_of(out@) =~= before + seq![s@.subrange(cur as int, e as int)]);
        let more: bool = starts_at(s, e, &comma) && e + 2 < n && alpha(s[e + 2]);
        if !more {
            assert(rows_of(out@) =~= labels_from(s@, at as int));
            return (out, e);
        }
        assert(before + (seq![s@.subrange(cur as int, e as int)] + labels_from(s@, e + 2)) =~= (
        before + seq![s@.subrange(cur as int, e as int)]) + labels_from(s@, e + 2));
        cur = e + 2;
    }
}

/// Reads the description of one valve from the bytes of a line.
pub fn parse_valve_bytes(s: &[u8]) -> (r: Option<(usize, Valve)>)
    ensures
        match parsed_valve(s@) {
            Some((rest, model)) => r is Some && r.unwrap().0 == rest && r.unwrap().1@ == model,
            None => r is None,
        },
{
    let n: usize = s.len();
    let valve: Vec<u8> = vec![86u8, 97u8, 108u8, 118u8, 101u8, 32u8];
    let rate_tag: Vec<u8> = vec![
        32u8,
        104u8,
        97u8,
        115u8,
        32u8,
        102u8,
        108u8,
        111u8,
        119u8,
        32u8,
        114u8,
        97u8,
        116u8,
        101u8,
        61u8,
    ];
    assert(valve@ =~= tag_valve());
    assert(rate_tag@ =~= tag_rate());
    assert(tag_valve().len() == 6 && tag_rate().len() == 15);
    if !starts_at(s, 0, &valve) {
        return None;
    }
    let b: usize = alpha_run(s, 6);
    if b == 6 {
        return None;
    }
    if !starts_at(s, b, &rate_tag) {
        return None;
    }
    let c: usize = b + 15;
    let c1: usize = if c < n && (s[c] == 45 || s[c] == 43) {
        c + 1
    } else {
        c
    };
    let d: usize = digit_run(s, c1);
    let token = copy_range(s, c, d);
    let rate: i32 = match parse_i32(token.as_slice()) {
        Some(v) => v,
        None => {
            return None;
        },
    };
    let f: usize = match search_connector(s, d) {
        Some(f) => f,
        None => {
            return None;
        },
    };
    if f >= n || !alpha(s[f]) {
        return None;
    }
    let id = copy_range(s, 6, b);
    let (connections, rest) = parse_labels(s, f);
    Some((rest, Valve { id, flow_rate: rate, connections }))
}

/// Reads the description of one valve; the number that comes with it says where in
/// the line the description ends.
pub fn parse_valve(i: &str) -> (r: Option<(usize, Valve)>)
    ensures
        match parsed_valve(i.spec_bytes()) {
            Some((rest, model)) => r is Some && r.unwrap().0 == rest && r.unwrap().1@ == model,
            None => r is None,
        },
{
    parse_valve_bytes(i.as_bytes())
}

/// Whether every line describes a valve.
pub open spec fn all_parse(ls: Seq<Seq<u8>>) -> bool {
    forall|i: int| 0 <= i < ls.len() ==> parsed_valve(#[trigger] ls[i]) is Some
}

/// The valves that the lines describe, in the order of the lines.
pub open spec fn parsed_valves(ls: Seq<Seq<u8>>) -> Seq<ValveModel> {
    Seq::new(ls.len(), |i: int| parsed_valve(ls[i]).unwrap().1)
}

/// Reads one valve from each line of a text, or nothing where some line describes none.
pub fn parse_lines(input: &[u8]) -> (r: Option<Vec<Valve>>)
    ensures
        r is Some == all_parse(lines(input@)),
        r is Some ==> models(r.unwrap()@) == parsed_valves(lines(input@)),
{
    let ls = split_lines(input);
    let mut out: Vec<Valve> = Vec::new();
    let mut i: usize = 0;
    while i < ls.len()
        invariant
            rows_of(ls@) == lines(input@),
            i <= ls@.len(),
            out@.len() == i,
            forall|a: int|
                0 <= a < i ==> parsed_valve(#[trigger] lines(input@)[a]) is Some && out@[a]@
                    == parsed_valve(lines(input@)[a]).unwrap().1,
        decreases ls@.len() - i,
    {
        assert(rows_of(ls@)[i as int] == ls@[i as int]@);
        match parse_valve_bytes(ls[i].as_slice()) {
            Some((_, v)) => {
                out.push(v);
            },
            None => {
                return None;
            },
        }
        i += 1;
    }
    assert(models(out@) =~= parsed_valves(lines(input@)));
    Some(out)
}

/// Whether label `a` comes before label `b`, or is the same, in the order that compares
/// byte by byte and puts a prefix before its extensions.
pub open spec fn label_le(a: Seq<u8>, b: Seq<u8>) -> bool
    decreases a.len(),
{
    if a.len() == 0 {
        true
    } else if b.len() == 0 {
        false
    } else if a[0] != b[0] {
        a[0] < b[0]
    } else {
        label_le(a.skip(1), b.skip(1))
    }
}

/// Whether `p` names position `j`.
pub open spec fn placed(p: Seq<int>, j: int) -> bool {
    exists|i: int| 0 <= i < p.len() && #[trigger] p[i] == j
}

/// Whether `out` holds the valves of `src`, each once, the one at `out[i]` taken from `src[p[i]]`,
/// in the order of their labels, valves with the same label in the order they had.
pub open spec fn arranges(p: Seq<int>, src: Seq<ValveModel>, out: Seq<ValveModel>) -> bool {
    &&& p.len() == src.len()
    &&& p.len() == out.len()
    &&& forall|i: int| 0 <= i < p.len() ==> 0 <= #[trigger] p[i] < src.len() && out[i] == src[p[i]]
    &&& forall|i: int, j: int| 0 <= i < j < p.len() ==> #[trigger] p[i] != #[trigger] p[j]
    &&& forall|j: int| 0 <= j < src.len() ==> #[trigger] placed(p, j)
    &&& forall|i: int, j: int|
        0 <= i < j < p.len() ==> label_le(#[trigger] out[i].id, #[trigger] out[j].id) && (out[i].id
            == out[j].id ==> p[i] < p[j])
}

/// Whether `out` is `src` sorted by label, valves with the same label left in order.
pub open spec fn is_sorted_copy(src: Seq<ValveModel>, out: Seq<ValveModel>) -> bool {
    exists|p: Seq<int>| #[trigger] arranges(p, src, out)
}

/// Sorts valves by label with `Itertools::sorted_by`, which sorts stably with the
/// comparison it is given; the comparison is that of the labels as byte strings. The
/// contract claims that the result holds every valve of the input exactly once, ordered
/// by label, and that valves with equal labels keep their order. None of this is proved
/// here.
#[verifier::external_body]
pub(crate) fn sorted_by_id(valves: Vec<Valve>) -> (r: Vec<Valve>)
    ensures
        is_sorted_copy(models(valves@), models(r@)),
{
    valves.into_iter().sorted_by(|a, b| a.id.cmp(&b.id)).collect()
}

/// Reads the valves of a text, one per line, and sorts them by label.
pub fn parse_input(input: &str) -> (r: Vec<Valve>)
    requires
        all_parse(lines(input.spec_bytes())),
    ensures
        is_sorted_copy(parsed_valves(lines(input.spec_bytes())), models(r@)),
{
    match parse_lines(input.as_bytes()) {
        Some(valves) => sorted_by_id(valves),
        None => Vec::new(),
    }
}

/// The index of the last valve with the given label, or -1 where no valve has it.
pub open spec fn label_index(vs: Seq<ValveModel>, label: Seq<u8>) -> int
    decreases vs.len(),
{
    if vs.len() == 0 {
        -1
    } else if vs.last().id == label {
        vs.len() - 1
    } else {
        label_index(vs.drop_last(), label)
    }
}

/// The index of a label is that of the last valve that bears it.
pub proof fn lemma_label_index(vs: Seq<ValveModel>, label: Seq<u8>)
    ensures
        -1 <= label_index(vs, label) < vs.len(),
        label_index(vs, label) >= 0 ==> vs[label_index(vs, label)].id == label,
        forall|i: int| 0 <= i < vs.len() && vs[i].id == label ==> i <= label_index(vs, label),
    decreases vs.len(),
{
    if vs.len() > 0 && vs.last().id != label {
        lemma_label_index(vs.drop_last(), label);
        assert forall|i: int| 0 <= i < vs.len() && vs[i].id == label implies i <= label_index(
            vs,
            label,
        ) by {
            assert(vs.drop_last()[i] == vs[i]);
        }
    }
}

/// Whether every label that a tunnel leads to is the label of some valve.
pub open spec fn resolves(vs: Seq<ValveModel>) -> bool {
    forall|i: int, c: int|
        0 <= i < vs.len() && 0 <= c < vs[i].connections.len() ==> label_index(
            vs,
            #[trigger] vs[i].connections[c],
        ) >= 0
}

/// The tunnels that leave valve `i`, each as a pair of indices.
pub open spec fn valve_edges(vs: Seq<ValveModel>, i: int) -> Seq<(usize, usize)> {
    Seq::new(
        vs[i].connections.len(),
        |c: int|
            (label_index(vs, vs[i].id) as usize, label_index(vs, vs[i].connections[c]) as usize),
    )
}

/// The tunnels that leave the first `m` valves, valve by valve.
pub open spec fn edges_upto(vs: Seq<ValveModel>, m: int) -> Seq<(usize, usize)>
    decreases m,
{
    if m <= 0 {
        Seq::empty()
    } else {
        edges_upto(vs, m - 1) + valve_edges(vs, m - 1)
    }
}

/// All tunnels, as pairs of valve indices: first those of the first valve in the order
/// its line names them, then those of the second, and so on.
pub open spec fn edge_list(vs: Seq<ValveModel>) -> Seq<(usize, usize)> {
    edges_upto(vs, vs.len() as int)
}

/// Tests whether two byte strings are the same.
pub fn same_bytes(a: &Vec<u8>, b: &Vec<u8>) -> (r: bool)
    ensures
        r == (a@ == b@),
{
    if a.len() != b.len() {
        return false;
    }
    let mut i: usize = 0;
    while i < a.len()
        invariant
            a@.len() == b@.len(),
            i <= a@.len(),
            forall|k: int| 0 <= k < i ==> a@[k] == b@[k],
        decreases a@.len() - i,
    {
        if a[i] != b[i] {
            return false;
        }
        i += 1;
    }
    assert(a@ =~= b@);
    true
}

/// Finds the index of the last valve with the given label.
pub fn find_label(valves: &Vec<Valve>, label: &Vec<u8>) -> (r: Option<usize>)
    ensures
        match r {
            Some(i) => i == label_index(models(valves@), label@),
            None => label_index(models(valves@), label@) == -1,
        },
{
    let ghost vs = models(valves@);
    let mut i: usize = valves.len();
    assert(vs.take(i as int) =~= vs);
    while i > 0
        invariant
            vs == models(valves@),
            i <= valves@.len(),
            label_index(vs, label@) == label_index(vs.take(i as int), label@),
        decreases i,
    {
        i -= 1;
        assert(vs.take(i + 1).last() == valves@[i as int]@);
        assert(vs.take(i + 1).drop_last() =~= vs.take(i as int));
        if same_bytes(&valves[i].id, label) {
            return Some(i);
        }
    }
    None
}

/// Lists the tunnels between valves as pairs of indices into `valves`.
pub fn edges(valves: &Vec<Valve>) -> (r: Vec<(usize, usize)>)
    requires
        resolves(models(valves@)),
    ensures
        r@ == edge_list(models(valves@)),
        forall|e: int| 0 <= e < r@.len() ==> (#[trigger] r@[e]).0 < valves@.len() && r@[e].1 < valves@.len(),
{
    let ghost vs = models(valves@);
    let n: usize = valves.len();
    let mut out: Vec<(usize, usize)> = Vec::new();
    let mut i: usize = 0;
    while i < n
        invariant
            vs == models(valves@),
            n == valves@.len(),
            resolves(vs),
            i <= n,
            out@ == edges_upto(vs, i as int),
            forall|e: int| 0 <= e < out@.len() ==> (#[trigger] out@[e]).0 < n && out@[e].1 < n,
        decreases n - i,
    {
        proof {
            lemma_label_index(vs, vs[i as int].id);
        }
        let from: usize = match find_label(valves, &valves[i].id) {
            Some(x) => x,
            None => 0,
        };
        let m: usize = valves[i].connections.len();
        let ghost base = out@;
        let mut c: usize = 0;
        while c < m
            invariant
                vs == models(valves@),
                n == valves@.len(),
                resolves(vs),
                i < n,
                m == valves@[i as int].connections@.len(),
                c <= m,
                from == label_index(vs, vs[i as int].id),
                from < n,
                out@ == base + valve_edges(vs, i as int).take(c as int),
                forall|e: int| 0 <= e < out@.len() ==> (#[trigger] out@[e]).0 < n && out@[e].1 < n,
            decreases m - c,
        {
            assert(vs[i as int].connections[c as int] == valves@[i as int].connections@[c as int]@);
            proof {
                lemma_label_index(vs, vs[i as int].connections[c as int]);
            }
            let to: usize = match find_label(valves, &valves[i].connections[c]) {
                Some(x) => x,
                None => 0,
            };
            out.push((from, to));
            assert(out@ =~= base + valve_edges(vs, i as int).take(c + 1));
            c += 1;
        }
        assert(valve_edges(vs, i as int).take(m as int) =~= valve_edges(vs, i as int));
        i += 1;
    }
    out
}

} // verus!
