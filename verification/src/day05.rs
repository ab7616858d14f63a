//! Stacks of crates and a crane that moves crates between them.

use crate::day11::{blocks_from, number_at, split_blocks, unsigned_at};
use crate::text::{collect_text, lines, rows_of, split_lines};
use crate::valve::{has_at, starts_at};
use vstd::prelude::*;
use vstd::string::StringSliceAdditionalSpecFns;

verus! {

/// An order for the crane: move so many crates from one stack to another. Stacks are
/// counted from 1.
#[derive(Clone, Copy, Debug, PartialEq, Eq)]
pub struct Instruction {
    pub n_crates: usize,
    pub from: usize,
    pub to: usize,
}

/// The text "move ".
pub open spec fn tag_move() -> Seq<u8> {
    seq![109u8, 111u8, 118u8, 101u8, 32u8]
}

/// The text " from ".
pub open spec fn tag_from() -> Seq<u8> {
    seq![32u8, 102u8, 114u8, 111u8, 109u8, 32u8]
}

/// The text " to ".
pub open spec fn tag_to() -> Seq<u8> {
    seq![32u8, 116u8, 111u8, 32u8]
}

/// The order that a line holds: "move ", a number, " from ", a number, " to ", a
/// number, and nothing else; each number in digits and within `usize`.
pub open spec fn instruction_of(s: Seq<u8>) -> Option<Instruction> {
    if !has_at(s, 0, tag_move()) {
        None
    } else {
        match unsigned_at(s, 5, usize::MAX as int) {
            None => None,
            Some((n, a)) => if !has_at(s, a, tag_from()) {
                None
            } else {
                match unsigned_at(s, a + 6, usize::MAX as int) {
                    None => None,
                    Some((from, b)) => if !has_at(s, b, tag_to()) {
                        None
                    } else {
                        match unsigned_at(s, b + 4, usize::MAX as int) {
                            None => None,
                            Some((to, c)) => if c == s.len() {
                                Some(
                                    Instruction {
                                        n_crates: n as usize,
                                        from: from as usize,
                                        to: to as usize,
                                    },
                                )
                            } else {
                                None
                            },
                        }
                    },
                }
            },
        }
    }
}

/// Reads the order that a line of bytes holds.
pub fn parse_instruction(s: &[u8]) -> (r: Option<Instruction>)
    ensures
        r == instruction_of(s@),
{
    let len: usize = s.len();
    let move_tag: Vec<u8> = vec![109u8, 111u8, 118u8, 101u8, 32u8];
    let from_tag: Vec<u8> = vec![32u8, 102u8, 114u8, 111u8, 109u8, 32u8];
    let to_tag: Vec<u8> = vec![32u8, 116u8, 111u8, 32u8];
    assert(move_tag@ =~= tag_move());
    assert(from_tag@ =~= tag_from());
    assert(to_tag@ =~= tag_to());
    assert(tag_move().len() == 5 && tag_from().len() == 6 && tag_to().len() == 4);
    if !starts_at(s, 0, &move_tag) {
        return None;
    }
    let (n, a) = match number_at(s, 5, usize::MAX as u64) {
        Some(found) => found,
        None => {
            return None;
        },
    };
    if !starts_at(s, a, &from_tag) {
        return None;
    }
    let (from, b) = match number_at(s, a + 6, usize::MAX as u64) {
        Some(found) => found,
        None => {
            return None;
        },
    };
    if !starts_at(s, b, &to_tag) {
        return None;
    }
    let (to, c) = match number_at(s, b + 4, usize::MAX as u64) {
        Some(found) => found,
        None => {
            return None;
        },
    };
    if c != len {
        return None;
    }
    Some(Instruction { n_crates: n as usize, from: from as usize, to: to as usize })
}

impl std::str::FromStr for Instruction {
    type Err = ();

    /// Reads the order that a line holds; the error says no more than that the line
    /// holds none.
    fn from_str(s: &str) -> (r: Result<Self, Self::Err>)
        ensures
            match instruction_of(s.spec_bytes()) {
                Some(order) => r == Ok::<Instruction, ()>(order),
                None => r == Err::<Instruction, ()>(()),
            },
    {
        match parse_instruction(s.as_bytes()) {
            Some(i) => Ok(i),
            None => Err(()),
        }
    }
}

/// Whether `b` is a capital letter.
pub open spec fn is_upper(b: u8) -> bool {
    65 <= b && b <= 90
}

/// The crates in column `col` of the rows from `top` down to the row above the last,
/// the lowest first.
pub open spec fn pile(ls: Seq<Seq<u8>>, col: int, top: int) -> Seq<char>
    decreases ls.len() - top,
{
    if top < 0 || top >= ls.len() - 1 {
        Seq::empty()
    } else if is_upper(ls[top][col]) {
        pile(ls, col, top + 1).push(ls[top][col] as char)
    } else {
        pile(ls, col, top + 1)
    }
}

/// The number of stacks that a drawing shows: a quarter of the length of its last
/// line, rounded.
pub open spec fn stack_count(ls: Seq<Seq<u8>>) -> int {
    (ls.last().len() as int + 1) / 4
}

/// Whether the lines are a drawing of stacks: a last line that numbers the stacks, and
/// above it lines of plain text that are long enough to hold a crate of each stack.
pub open spec fn is_drawing(ls: Seq<Seq<u8>>) -> bool {
    &&& ls.len() >= 1
    &&& forall|i: int|
        0 <= i < ls.len() - 1 ==> 4 * stack_count(ls) - 3 < (#[trigger] ls[i]).len() || stack_count(
            ls,
        ) == 0
    &&& forall|i: int, j: int| 0 <= i < ls.len() - 1 && 0 <= j < ls[i].len() ==> #[trigger] ls[i][j] < 128
}

/// The stacks that a drawing shows.
pub open spec fn drawn(ls: Seq<Seq<u8>>) -> Seq<Seq<char>> {
    Seq::new(stack_count(ls) as nat, |s: int| pile(ls, 4 * s + 1, 0))
}

/// The stacks of a vector of stacks, as sequences.
pub open spec fn stacks_of(v: Seq<Vec<char>>) -> Seq<Seq<char>> {
    Seq::new(v.len(), |i: int| v[i]@)
}

/// Reads the stacks that the lines of a drawing show.
pub fn parse_stack_lines(ls: &Vec<Vec<u8>>) -> (r: Vec<Vec<char>>)
    requires
        is_drawing(rows_of(ls@)),
    ensures
        stacks_of(r@) == drawn(rows_of(ls@)),
{
    let ghost rows = rows_of(ls@);
    let m: usize = ls.len();
    assert(rows.last() == ls@[m - 1]@);
    let n_stacks: usize = ls[m - 1].len() / 4 + if ls[m - 1].len() % 4 == 3 {
        1
    } else {
        0
    };
    assert(n_stacks == stack_count(rows));
    let mut stacks: Vec<Vec<char>> = Vec::new();
    let mut k: usize = 0;
    while k < n_stacks
        invariant
            k <= n_stacks,
            stacks@.len() == k,
            forall|s: int| 0 <= s < k ==> (#[trigger] stacks@[s])@ == Seq::<char>::empty(),
        decreases n_stacks - k,
    {
        stacks.push(Vec::new());
        k += 1;
    }
    let mut row: usize = m - 1;
    while row > 0
        invariant
            rows == rows_of(ls@),
            is_drawing(rows),
            m == ls@.len(),
            n_stacks == stack_count(rows),
            row <= m - 1,
            stacks@.len() == n_stacks,
            forall|s: int|
                0 <= s < n_stacks ==> (#[trigger] stacks@[s])@ == pile(rows, 4 * s + 1, row as int),
        decreases row,
    {
        row -= 1;
        assert(rows[row as int] == ls@[row as int]@);
        let ghost before = stacks_of(stacks@);
        let mut stack: usize = 0;
        while stack < n_stacks
            invariant
                rows == rows_of(ls@),
                is_drawing(rows),
                m == ls@.len(),
                row < m - 1,
                rows[row as int] == ls@[row as int]@,
                n_stacks == stack_count(rows),
                stack <= n_stacks,
                stacks@.len() == n_stacks,
                forall|s: int|
                    0 <= s < stack ==> (#[trigger] stacks@[s])@ == pile(rows, 4 * s + 1, row as int),
                forall|s: int|
                    stack <= s < n_stacks ==> (#[trigger] stacks@[s])@ == pile(
                        rows,
                        4 * s + 1,
                        row + 1,
                    ),
            decreases n_stacks - stack,
        {
            assert(4 * stack_count(rows) - 3 < rows[row as int].len());
            let width: usize = ls[row].len();
            assert(4 * stack + 1 < width);
            let c: u8 = ls[row][stack * 4 + 1];
            if 65 <= c && c <= 90 {
                let ghost prev = stacks_of(stacks@);
                stacks[stack].push(c as char);
                proof {
                    assert forall|s: int| 0 <= s < n_stacks && s != stack implies stacks@[s]@
                        == prev[s] by {}
                }
            }
            stack += 1;
        }
    }
    assert(stacks_of(stacks@) =~= drawn(rows));
    stacks
}

/// Reads the stacks that a drawing shows.
pub fn parse_stacks(input: &str) -> (r: Vec<Vec<char>>)
    requires
        is_drawing(lines(input.spec_bytes())),
    ensures
        stacks_of(r@) == drawn(lines(input.spec_bytes())),
{
    let ls = split_lines(input.as_bytes());
    parse_stack_lines(&ls)
}

/// The stacks after the top crate of stack `from` went on stack `to`; stacks are
/// counted from 0 here.
pub open spec fn moved_one(st: Seq<Seq<char>>, from: int, to: int) -> Seq<Seq<char>> {
    let lifted = st.update(from, st[from].drop_last());
    lifted.update(to, lifted[to].push(st[from].last()))
}

/// The stacks after `n` crates went from stack `from` to stack `to`, one at a time.
pub open spec fn moved(st: Seq<Seq<char>>, n: int, from: int, to: int) -> Seq<Seq<char>>
    decreases n,
{
    if n <= 0 {
        st
    } else {
        moved_one(moved(st, n - 1, from, to), from, to)
    }
}

/// The stacks after the top `n` crates of stack `from` went on stack `to` in one lift,
/// their order unchanged.
pub open spec fn moved_block(st: Seq<Seq<char>>, n: int, from: int, to: int) -> Seq<Seq<char>> {
    let keep = st[from].len() - n;
    let lifted = st.update(from, st[from].take(keep));
    lifted.update(to, lifted[to] + st[from].skip(keep))
}

/// Whether the crane can carry out an order: both stacks exist and the one to take
/// from holds enough crates.
pub open spec fn can_lift(st: Seq<Seq<char>>, i: Instruction) -> bool {
    &&& 1 <= i.from <= st.len()
    &&& 1 <= i.to <= st.len()
    &&& (i.n_crates <= st[i.from - 1].len() || (i.n_crates > 0 && i.from == i.to && st[i.from
        - 1].len() > 0))
}

/// Whether the crane can carry out an order in one lift.
pub open spec fn can_lift_block(st: Seq<Seq<char>>, i: Instruction) -> bool {
    &&& 1 <= i.from <= st.len()
    &&& 1 <= i.to <= st.len()
    &&& i.n_crates <= st[i.from - 1].len()
}

/// The stacks after the first `k` orders, crates moved one at a time.
pub open spec fn after_orders(st: Seq<Seq<char>>, orders: Seq<Instruction>, k: int) -> Seq<Seq<char>>
    decreases k,
{
    if k <= 0 {
        st
    } else {
        moved(
            after_orders(st, orders, k - 1),
            orders[k - 1].n_crates as int,
            orders[k - 1].from - 1,
            orders[k - 1].to - 1,
        )
    }
}

/// The stacks after the first `k` orders, each carried out in one lift.
pub open spec fn after_lifts(st: Seq<Seq<char>>, orders: Seq<Instruction>, k: int) -> Seq<Seq<char>>
    decreases k,
{
    if k <= 0 {
        st
    } else {
        moved_block(
            after_lifts(st, orders, k - 1),
            orders[k - 1].n_crates as int,
            orders[k - 1].from - 1,
            orders[k - 1].to - 1,
        )
    }
}

/// Whether the crane can carry out all orders, crates moved one at a time.
pub open spec fn orders_ok(st: Seq<Seq<char>>, orders: Seq<Instruction>) -> bool {
    forall|k: int| 0 <= k < orders.len() ==> can_lift(#[trigger] after_orders(st, orders, k), orders[k])
}

/// Whether the crane can carry out all orders, each in one lift.
pub open spec fn lifts_ok(st: Seq<Seq<char>>, orders: Seq<Instruction>) -> bool {
    forall|k: int|
        0 <= k < orders.len() ==> can_lift_block(#[trigger] after_lifts(st, orders, k), orders[k])
}

/// The top crates of the stacks.
pub open spec fn tops(st: Seq<Seq<char>>) -> Seq<char> {
    Seq::new(st.len(), |i: int| st[i].last())
}

/// Whether no stack is empty.
pub open spec fn none_empty(st: Seq<Seq<char>>) -> bool {
    forall|i: int| 0 <= i < st.len() ==> (#[trigger] st[i]).len() > 0
}

/// Moves crates from one stack to another, one at a time.
pub fn lift_single(stacks: &mut Vec<Vec<char>>, order: &Instruction)
    requires
        can_lift(stacks_of(old(stacks)@), *order),
    ensures
        stacks_of(final(stacks)@) == moved(
            stacks_of(old(stacks)@),
            order.n_crates as int,
            order.from - 1,
            order.to - 1,
        ),
{
    let ghost st = stacks_of(stacks@);
    let from: usize = order.from - 1;
    let to: usize = order.to - 1;
    let mut k: usize = 0;
    while k < order.n_crates
        invariant
            st.len() == stacks@.len(),
            from == order.from - 1,
            to == order.to - 1,
            from < st.len(),
            to < st.len(),
            k <= order.n_crates,
            stacks_of(stacks@) == moved(st, k as int, from as int, to as int),
            (from == to && order.n_crates > 0) ==> stacks_of(stacks@)[from as int].len() > 0,
            from != to ==> stacks_of(stacks@)[from as int].len() + k == st[from as int].len(),
            from != to ==> order.n_crates <= st[from as int].len(),
        decreases order.n_crates - k,
    {
        let ghost prev = stacks_of(stacks@);
        assert(prev[from as int] == stacks@[from as int]@);
        let crate_to_move: char = match stacks[from].pop() {
            Some(c) => c,
            None => ' ',
        };
        let ghost mid = stacks_of(stacks@);
        assert(mid =~= prev.update(from as int, prev[from as int].drop_last()));
        stacks[to].push(crate_to_move);
        assert(stacks_of(stacks@) =~= mid.update(to as int, mid[to as int].push(crate_to_move)));
        k += 1;
    }
}

/// Moves crates from one stack to another in one lift.
pub fn lift_block(stacks: &mut Vec<Vec<char>>, order: &Instruction)
    requires
        can_lift_block(stacks_of(old(stacks)@), *order),
    ensures
        stacks_of(final(stacks)@) == moved_block(
            stacks_of(old(stacks)@),
            order.n_crates as int,
            order.from - 1,
            order.to - 1,
        ),
{
    let ghost st = stacks_of(stacks@);
    let from: usize = order.from - 1;
    let to: usize = order.to - 1;
    assert(st[from as int] == stacks@[from as int]@);
    let height: usize = stacks[from].len();
    let keep: usize = height - order.n_crates;
    let mut block: Vec<char> = Vec::new();
    let mut j: usize = keep;
    while j < height
        invariant
            st == stacks_of(stacks@),
            from < stacks@.len(),
            height == stacks@[from as int]@.len(),
            keep <= j <= height,
            block@ == st[from as int].subrange(keep as int, j as int),
        decreases height - j,
    {
        block.push(stacks[from][j]);
        assert(block@ =~= st[from as int].subrange(keep as int, j + 1));
        j += 1;
    }
    assert(block@ =~= st[from as int].skip(keep as int));
    let mut k: usize = height;
    assert(st[from as int].take(height as int) =~= st[from as int]);
    assert(st.update(from as int, st[from as int]) =~= st);
    while k > keep
        invariant
            st.len() == stacks@.len(),
            from < stacks@.len(),
            keep <= k <= height,
            height == st[from as int].len(),
            stacks_of(stacks@) == st.update(from as int, st[from as int].take(k as int)),
        decreases k,
    {
        let ghost prev = stacks_of(stacks@);
        assert(prev[from as int] == stacks@[from as int]@);
        stacks[from].pop();
        k -= 1;
        proof {
            assert(st[from as int].take(k + 1).drop_last() =~= st[from as int].take(k as int));
            let now = stacks_of(stacks@);
            let want = st.update(from as int, st[from as int].take(k as int));
            assert(now.len() == want.len());
            assert forall|x: int| 0 <= x < now.len() implies now[x] == want[x] by {
                if x != from {
                    assert(now[x] == prev[x]);
                }
            }
            assert(now =~= want);
        }
    }
    let ghost lifted = stacks_of(stacks@);
    let mut j: usize = 0;
    assert(lifted[to as int] + block@.take(0) =~= lifted[to as int]);
    assert(lifted.update(to as int, lifted[to as int]) =~= lifted);
    while j < block.len()
        invariant
            lifted.len() == stacks@.len(),
            to < stacks@.len(),
            j <= block@.len(),
            stacks_of(stacks@) == lifted.update(to as int, lifted[to as int] + block@.take(j as int)),
        decreases block@.len() - j,
    {
        let ghost prev = stacks_of(stacks@);
        assert(prev[to as int] == stacks@[to as int]@);
        stacks[to].push(block[j]);
        proof {
            assert(block@.take(j + 1) =~= block@.take(j as int).push(block@[j as int]));
            assert((lifted[to as int] + block@.take(j as int)).push(block@[j as int]) =~= lifted[to as int]
                + block@.take(j + 1));
            let now = stacks_of(stacks@);
            let want = lifted.update(to as int, lifted[to as int] + block@.take(j + 1));
            assert(now.len() == want.len());
            assert forall|x: int| 0 <= x < now.len() implies now[x] == want[x] by {
                if x != to {
                    assert(now[x] == prev[x]);
                }
            }
            assert(now =~= want);
        }
        j += 1;
    }
    assert(block@.take(j as int) =~= block@);
}

/// Reads off the top crate of each stack.
pub fn top_stacks(stacks: Vec<Vec<char>>) -> (r: String)
    requires
        none_empty(stacks_of(stacks@)),
    ensures
        r@ == tops(stacks_of(stacks@)),
{
    let ghost st = stacks_of(stacks@);
    let mut out: Vec<char> = Vec::new();
    let mut i: usize = 0;
    while i < stacks.len()
        invariant
            st == stacks_of(stacks@),
            none_empty(st),
            i <= stacks@.len(),
            out@ == tops(st).take(i as int),
        decreases stacks@.len() - i,
    {
        assert(st[i as int] == stacks@[i as int]@);
        assert(st[i as int].len() > 0);
        out.push(stacks[i][stacks[i].len() - 1]);
        assert(out@ =~= tops(st).take(i + 1));
        i += 1;
    }
    assert(tops(st).take(i as int) =~= tops(st));
    collect_text(out)
}

/// Whether a text holds a drawing of stacks, a blank line, and one order on each line
/// after that up to the next blank line.
pub open spec fn is_plan(s: Seq<u8>) -> bool {
    &&& blocks_from(s, 0).len() >= 2
    &&& is_drawing(lines(blocks_from(s, 0)[0]))
    &&& forall|i: int|
        0 <= i < lines(blocks_from(s, 0)[1]).len() ==> instruction_of(
            #[trigger] lines(blocks_from(s, 0)[1])[i],
        ) is Some
}

/// The stacks that a plan starts with.
pub open spec fn plan_stacks(s: Seq<u8>) -> Seq<Seq<char>> {
    drawn(lines(blocks_from(s, 0)[0]))
}

/// The orders of a plan.
pub open spec fn plan_orders(s: Seq<u8>) -> Seq<Instruction> {
    Seq::new(
        lines(blocks_from(s, 0)[1]).len(),
        |i: int| instruction_of(lines(blocks_from(s, 0)[1])[i]).unwrap(),
    )
}

/// Reads the stacks and the orders of a plan.
pub fn parse_input(input: &str) -> (r: (Vec<Vec<char>>, Vec<Instruction>))
    requires
        is_plan(input.spec_bytes()),
    ensures
        stacks_of(r.0@) == plan_stacks(input.spec_bytes()),
        r.1@ == plan_orders(input.spec_bytes()),
{
    let blocks = split_blocks(input.as_bytes());
    let ghost parts = rows_of(blocks@);
    assert(parts[0] == blocks@[0]@);
    assert(parts[1] == blocks@[1]@);
    let drawing = split_lines(blocks[0].as_slice());
    let stacks = parse_stack_lines(&drawing);
    let ls = split_lines(blocks[1].as_slice());
    let ghost rows = rows_of(ls@);
    let mut orders: Vec<Instruction> = Vec::new();
    let mut i: usize = 0;
    while i < ls.len()
        invariant
            rows == rows_of(ls@),
            rows == lines(blocks_from(input.spec_bytes(), 0)[1]),
            is_plan(input.spec_bytes()),
            i <= ls@.len(),
            orders@.len() == i,
            forall|k: int| 0 <= k < i ==> Some(#[trigger] orders@[k]) == instruction_of(rows[k]),
        decreases ls@.len() - i,
    {
        assert(rows[i as int] == ls@[i as int]@);
        match parse_instruction(ls[i].as_slice()) {
            Some(order) => {
                orders.push(order);
            },
            None => {},
        }
        i += 1;
    }
    assert(orders@ =~= plan_orders(input.spec_bytes()));
    (stacks, orders)
}

/// The top crates after the crane moved crates one at a time.
pub fn part1(input: &str) -> (r: String)
    requires
        is_plan(input.spec_bytes()),
        orders_ok(plan_stacks(input.spec_bytes()), plan_orders(input.spec_bytes())),
        none_empty(
            after_orders(
                plan_stacks(input.spec_bytes()),
                plan_orders(input.spec_bytes()),
                plan_orders(input.spec_bytes()).len() as int,
            ),
        ),
    ensures
        r@ == tops(
            after_orders(
                plan_stacks(input.spec_bytes()),
                plan_orders(input.spec_bytes()),
                plan_orders(input.spec_bytes()).len() as int,
            ),
        ),
{
    let (mut stacks, instructions) = parse_input(input);
    let ghost st = stacks_of(stacks@);
    let mut k: usize = 0;
    while k < instructions.len()
        invariant
            orders_ok(st, instructions@),
            k <= instructions@.len(),
            stacks_of(stacks@) == after_orders(st, instructions@, k as int),
        decreases instructions@.len() - k,
    {
        assert(can_lift(after_orders(st, instructions@, k as int), instructions@[k as int]));
        lift_single(&mut stacks, &instructions[k]);
        k += 1;
    }
    top_stacks(stacks)
}

/// The top crates after the crane carried out each order in one lift.
pub fn part2(input: &str) -> (r: String)
    requires
        is_plan(input.spec_bytes()),
        lifts_ok(plan_stacks(input.spec_bytes()), plan_orders(input.spec_bytes())),
        none_empty(
            after_lifts(
                plan_stacks(input.spec_bytes()),
                plan_orders(input.spec_bytes()),
                plan_orders(input.spec_bytes()).len() as int,
            ),
        ),
    ensures
        r@ == tops(
            after_lifts(
                plan_stacks(input.spec_bytes()),
                plan_orders(input.spec_bytes()),
                plan_orders(input.spec_bytes()).len() as int,
            ),
        ),
{
    let (mut stacks, instructions) = parse_input(input);
    let ghost st = stacks_of(stacks@);
    let mut k: usize = 0;
    while k < instructions.len()
        invariant
            lifts_ok(st, instructions@),
            k <= instructions@.len(),
            stacks_of(stacks@) == after_lifts(st, instructions@, k as int),
        decreases instructions@.len() - k,
    {
        assert(can_lift_block(after_lifts(st, instructions@, k as int), instructions@[k as int]));
        lift_block(&mut stacks, &instructions[k]);
        k += 1;
    }
    top_stacks(stacks)
}

} // verus!
