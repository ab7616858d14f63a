//! Packets of nested lists of numbers, and their order.

use vstd::prelude::*;

verus! {

/// A packet: a number, or a list of packets.
#[derive(Debug)]
pub enum Value {
    Int(i32),
    List(Vec<Value>),
}

/// How one packet stands to another.
#[derive(Clone, Copy, Debug, PartialEq, Eq)]
pub enum Order {
    Less,
    Equal,
    Greater,
}

/// How the number `x` stands to the number `y`.
pub open spec fn number_order(x: int, y: int) -> Order {
    if x < y {
        Order::Less
    } else if x == y {
        Order::Equal
    } else {
        Order::Greater
    }
}

/// How a list of `n` packets stands to a list of `m` packets that agree as far as
/// both go: the shorter comes first.
pub open spec fn length_order(n: int, m: int) -> Order {
    number_order(n, m)
}

/// How packet `a` stands to packet `b`. Numbers compare as numbers. Lists compare
/// packet by packet, the first difference deciding, and a list that runs out comes
/// before one that goes on. A number against a list counts as the list of that number
/// alone.
pub open spec fn order(a: Value, b: Value) -> Order
    decreases a, b, 1int, 0int,
{
    match (a, b) {
        (Value::Int(x), Value::Int(y)) => number_order(x as int, y as int),
        (Value::Int(_), Value::List(ys)) => if ys@.len() == 0 {
            Order::Greater
        } else if order(a, ys@[0]) != Order::Equal {
            order(a, ys@[0])
        } else {
            length_order(1, ys@.len() as int)
        },
        (Value::List(xs), Value::Int(_)) => if xs@.len() == 0 {
            Order::Less
        } else if order(xs@[0], b) != Order::Equal {
            order(xs@[0], b)
        } else {
            length_order(xs@.len() as int, 1)
        },
        (Value::List(_), Value::List(_)) => order_from(a, b, 0),
    }
}

/// How the packets of list `a` from position `i` on stand to those of list `b`.
pub open spec fn order_from(a: Value, b: Value, i: int) -> Order
    decreases a, b, 0int, (if a is List { a->List_0@.len() - i } else { 0 }),
{
    match (a, b) {
        (Value::List(xs), Value::List(ys)) => if i < 0 || i >= xs@.len() || i >= ys@.len() {
            length_order(xs@.len() as int, ys@.len() as int)
        } else if order(xs@[i], ys@[i]) != Order::Equal {
            order(xs@[i], ys@[i])
        } else {
            order_from(a, b, i + 1)
        },
        _ => Order::Equal,
    }
}

/// Compares two numbers.
pub fn compare_numbers(x: i32, y: i32) -> (r: Order)
    ensures
        r == number_order(x as int, y as int),
{
    if x < y {
        Order::Less
    } else if x == y {
        Order::Equal
    } else {
        Order::Greater
    }
}

/// Compares two lengths.
pub fn compare_lengths(n: usize, m: usize) -> (r: Order)
    ensures
        r == length_order(n as int, m as int),
{
    if n < m {
        Order::Less
    } else if n == m {
        Order::Equal
    } else {
        Order::Greater
    }
}

/// Tests whether an order is `Equal`.
pub fn is_equal(o: Order) -> (r: bool)
    ensures
        r == (o == Order::Equal),
{
    match o {
        Order::Equal => true,
        _ => false,
    }
}

/// Compares two packets.
pub fn compare(a: &Value, b: &Value) -> (r: Order)
    ensures
        r == order(*a, *b),
    decreases *a, *b,
{
    match (a, b) {
        (Value::Int(x), Value::Int(y)) => compare_numbers(*x, *y),
        (Value::Int(_), Value::List(ys)) => {
            if ys.len() == 0 {
                Order::Greater
            } else {
                let first = compare(a, &ys[0]);
                if !is_equal(first) {
                    first
                } else {
                    compare_lengths(1, ys.len())
                }
            }
        },
        (Value::List(xs), Value::Int(_)) => {
            if xs.len() == 0 {
                Order::Less
            } else {
                let first = compare(&xs[0], b);
                if !is_equal(first) {
                    first
                } else {
                    compare_lengths(xs.len(), 1)
                }
            }
        },
        (Value::List(xs), Value::List(ys)) => {
            let mut i: usize = 0;
            while i < xs.len() && i < ys.len()
                invariant
                    *a == Value::List(*xs),
                    *b == Value::List(*ys),
                    i <= xs@.len(),
                    i <= ys@.len(),
                    order(*a, *b) == order_from(*a, *b, i as int),
                decreases xs@.len() - i,
            {
                let here = compare(&xs[i], &ys[i]);
                if !is_equal(here) {
                    return here;
                }
                i += 1;
            }
            compare_lengths(xs.len(), ys.len())
        },
    }
}

/// Tests whether the first packet of a pair comes before the second.
pub fn ordered_correctly(pair: &(Value, Value)) -> (r: bool)
    ensures
        r == (order(pair.0, pair.1) == Order::Less),
{
    match compare(&pair.0, &pair.1) {
        Order::Less => true,
        _ => false,
    }
}

} // verus!
