use dasp::argumentation_framework::extension::unquote;
use dasp::argumentation_framework::symbols::Argument;
use dasp::argumentation_framework::Counter;
use dasp::text::{push_chars, push_decimal, rank, slice_to_string, to_chars, Rank};

#[test]
fn characters_and_slices() {
    let chars = to_chars("héllo");
    assert_eq!(chars, vec!['h', 'é', 'l', 'l', 'o']);
    assert_eq!(slice_to_string(&chars, 1, 4), "éll");
    assert_eq!(slice_to_string(&chars, 2, 2), "");
    let mut text = String::from(">");
    push_chars(&mut text, &chars, 0, 5);
    assert_eq!(text, ">héllo");
}

#[test]
fn decimal_numerals() {
    for (n, expected) in [(0usize, "0"), (9, "9"), (10, "10"), (101, "101"), (65535, "65535")] {
        let mut text = String::new();
        push_decimal(&mut text, n);
        assert_eq!(text, expected);
    }
    let mut text = String::from("n=");
    push_decimal(&mut text, usize::MAX);
    assert_eq!(text, format!("n={}", usize::MAX));
}

#[test]
fn names_are_ranked_like_strings() {
    let names = ["", "a", "a1", "a10", "a2", "b", "B", "_", "é", "ab", "aB"];
    for left in names {
        for right in names {
            let expected = match left.cmp(right) {
                std::cmp::Ordering::Less => Rank::Before,
                std::cmp::Ordering::Equal => Rank::Same,
                std::cmp::Ordering::Greater => Rank::After,
            };
            assert_eq!(rank(&left.to_string(), &right.to_string()), expected, "{left} {right}");
            assert_eq!(
                Argument::new(left, true).partial_cmp(&Argument::new(right, false)),
                Some(left.cmp(right))
            );
        }
    }
    assert!(Argument::new("a1", true) < Argument::new("a2", false));
    assert!(Argument::new("b", false) > Argument::new("a", false));
}

#[test]
fn quotation_marks_are_stripped_at_both_ends() {
    for (symbol, expected) in [
        ("a", "a"),
        ("\"a\"", "a"),
        ("\"\"a", "a"),
        ("a\"\"\"", "a"),
        ("\"a\"b\"", "a\"b"),
        ("\"", ""),
        ("", ""),
    ] {
        assert_eq!(unquote(&symbol.to_string()), expected);
        assert_eq!(unquote(&symbol.to_string()), symbol.trim_matches('"'));
    }
}

#[test]
fn counter_counts_from_zero() {
    let mut counter = Counter::new();
    assert_eq!(counter.next(), 0);
    assert_eq!(counter.next(), 1);
    assert_eq!(counter.next(), 2);
    let mut last = Counter(usize::MAX);
    assert_eq!(last.next(), usize::MAX);
    assert_eq!(last.next(), 0);
}
