use raddar::keys::{find_dot, join, split_first};
use raddar::order::{sorted_order, str_less};

#[test]
fn split_at_first_dot() {
    assert_eq!(split_first("block1.conv.weight"), ("block1".to_string(), Some("conv.weight".to_string())));
    assert_eq!(split_first("fc"), ("fc".to_string(), None));
    assert_eq!(split_first(".x"), ("".to_string(), Some("x".to_string())));
    assert_eq!(split_first("a."), ("a".to_string(), Some("".to_string())));
    assert_eq!(find_dot("ab.c"), 2);
    assert_eq!(find_dot("abc"), 3);
}

#[test]
fn join_puts_a_dot_between() {
    assert_eq!(join(&"a".to_string(), &"b.c".to_string()), "a.b.c");
    assert_eq!(join(&"".to_string(), &"".to_string()), ".");
}

#[test]
fn names_compare_like_str() {
    for (a, b) in [("a", "b"), ("a", "ab"), ("ab", "a"), ("", "a"), ("a", "a"), ("B", "a"), ("x.y", "x-y"), ("é", "z")] {
        assert_eq!(str_less(a, b), a < b, "{} {}", a, b);
    }
    let names: Vec<String> = ["c", "a", "b", "a"].iter().map(|s| s.to_string()).collect();
    assert_eq!(sorted_order(&names), vec![1, 3, 2, 0]);
}
