use advent2022::day13::{compare, ordered_correctly, Order, Value};

fn number(x: i32) -> Value {
    Value::Int(x)
}

fn nested(items: Vec<Value>) -> Value {
    Value::List(items)
}

fn numbers(xs: &[i32]) -> Value {
    nested(xs.iter().map(|x| number(*x)).collect())
}

#[test]
fn numbers_and_lists_in_order() {
    // [1,1,3,1,1] before [1,1,5,1,1]
    assert!(ordered_correctly(&(numbers(&[1, 1, 3, 1, 1]), numbers(&[1, 1, 5, 1, 1]))));
    // [[1],[2,3,4]] before [[1],4]
    let left = nested(vec![numbers(&[1]), numbers(&[2, 3, 4])]);
    let right = nested(vec![numbers(&[1]), number(4)]);
    assert!(ordered_correctly(&(left, right)));
    // [9] after [[8,7,6]]
    assert!(!ordered_correctly(&(numbers(&[9]), nested(vec![numbers(&[8, 7, 6])]))));
    // [[4,4],4,4] before [[4,4],4,4,4]
    let left = nested(vec![numbers(&[4, 4]), number(4), number(4)]);
    let right = nested(vec![numbers(&[4, 4]), number(4), number(4), number(4)]);
    assert!(ordered_correctly(&(left, right)));
    // [7,7,7,7] after [7,7,7]
    assert!(!ordered_correctly(&(numbers(&[7, 7, 7, 7]), numbers(&[7, 7, 7]))));
    // [] before [3]
    assert!(ordered_correctly(&(numbers(&[]), numbers(&[3]))));
    // [[[]]] after [[]]
    let left = nested(vec![nested(vec![numbers(&[])])]);
    let right = nested(vec![numbers(&[])]);
    assert!(!ordered_correctly(&(left, right)));
}

#[test]
fn a_number_counts_as_its_list() {
    assert_eq!(compare(&number(3), &numbers(&[3])), Order::Equal);
    assert_eq!(compare(&numbers(&[3]), &number(3)), Order::Equal);
    assert_eq!(compare(&number(3), &nested(vec![numbers(&[3])])), Order::Equal);
    assert_eq!(compare(&number(3), &numbers(&[])), Order::Greater);
    assert_eq!(compare(&numbers(&[]), &number(3)), Order::Less);
    assert_eq!(compare(&number(3), &numbers(&[3, 0])), Order::Less);
    assert_eq!(compare(&numbers(&[3, 0]), &number(3)), Order::Greater);
    assert_eq!(compare(&number(2), &numbers(&[3])), Order::Less);
    assert_eq!(compare(&number(-1), &number(-2)), Order::Greater);
    assert_eq!(compare(&numbers(&[1, 2]), &numbers(&[1, 2])), Order::Equal);
    assert!(!ordered_correctly(&(numbers(&[1, 2]), numbers(&[1, 2]))));
}
