use puzzle_solvers::ordering::{is_sorted_by, sort_by, OrderingError, OrderingTable};
use puzzle_solvers::updates::{
    check_update, middle_page, parse_input, parse_ordering_rule, parse_page, parse_updates,
    Checked, InputError, ParseError, UpdateError,
};
use std::cmp::Ordering;

#[test]
fn pages() {
    assert_eq!(parse_page(b"47"), Some(47));
    assert_eq!(parse_page(b"0"), Some(0));
    assert_eq!(parse_page(b"+47"), Some(47));
    assert_eq!(parse_page(b"4294967295"), Some(u32::MAX));
    assert_eq!(parse_page(b"4294967296"), None);
    assert_eq!(parse_page(b""), None);
    assert_eq!(parse_page(b"4 7"), None);
    assert_eq!(parse_page(b"-1"), None);
    assert_eq!(parse_page(b"47\r"), None);
}

#[test]
fn rule_line_is_recorded() {
    let mut t = OrderingTable::new();
    assert_eq!(parse_ordering_rule(&mut t, b"47|53"), Ok(()));
    assert_eq!(t.get_ordering(47, 53), Ok(Ordering::Less));
    assert_eq!(t.get_ordering(53, 47), Ok(Ordering::Greater));
    assert_eq!(t.get_col_idx(47), Some(0));
    assert_eq!(t.get_col_idx(53), Some(1));
}

#[test]
fn rule_line_is_split_at_the_first_bar() {
    let mut t = OrderingTable::new();
    assert_eq!(parse_ordering_rule(&mut t, b"1|2|3"), Err(ParseError::BadPage));
    assert_eq!(parse_ordering_rule(&mut t, b"|2"), Err(ParseError::BadPage));
    assert_eq!(parse_ordering_rule(&mut t, b"1|"), Err(ParseError::BadPage));
    assert_eq!(parse_ordering_rule(&mut t, b"1| 2"), Err(ParseError::BadPage));
    assert_eq!(parse_ordering_rule(&mut t, b"x|2"), Err(ParseError::BadPage));
    assert_eq!(parse_ordering_rule(&mut t, b"12"), Err(ParseError::MissingSeparator));
    assert_eq!(parse_ordering_rule(&mut t, b""), Err(ParseError::MissingSeparator));
    assert_eq!(parse_ordering_rule(&mut t, b"1,2"), Err(ParseError::MissingSeparator));
    assert_eq!(t.get_col_idx(1), None);
    assert_eq!(t.get_col_idx(2), None);
}

#[test]
fn update_line_is_appended() {
    let mut pages: Vec<Vec<u32>> = vec![vec![9]];
    assert_eq!(parse_updates(&mut pages, b"75,47,61,53,29"), Ok(()));
    assert_eq!(parse_updates(&mut pages, b"5"), Ok(()));
    assert_eq!(parse_updates(&mut pages, b"+1,002"), Ok(()));
    assert_eq!(pages, vec![vec![9], vec![75, 47, 61, 53, 29], vec![5], vec![1, 2]]);
}

#[test]
fn update_line_with_a_bad_page_is_refused() {
    let mut pages: Vec<Vec<u32>> = vec![vec![9]];
    for line in ["", "1,", ",1", "1,,2", "1, 2", "1,x", "1|2", "1,4294967296"] {
        assert_eq!(parse_updates(&mut pages, line.as_bytes()), Err(ParseError::BadPage));
    }
    assert_eq!(pages, vec![vec![9]]);
}

#[test]
fn middle_pages() {
    assert_eq!(middle_page(&vec![75, 47, 61, 53, 29]), Some(61));
    assert_eq!(middle_page(&vec![75, 29, 13]), Some(29));
    assert_eq!(middle_page(&vec![7]), Some(7));
    assert_eq!(middle_page(&vec![1, 2]), Some(2));
    assert_eq!(middle_page(&vec![1, 2, 3, 4]), Some(3));
    assert_eq!(middle_page(&Vec::new()), None);
}

#[test]
fn sample_puzzle_text() {
    let rules = [
        "47|53", "97|13", "97|61", "97|47", "75|29", "61|13", "75|53", "29|13", "97|29", "53|29",
        "61|53", "97|53", "61|29", "47|13", "75|47", "97|75", "47|61", "75|61", "47|29", "75|13",
        "53|13",
    ];
    let lines =
        ["75,47,61,53,29", "97,61,53,29,13", "75,29,13", "75,97,47,61,53", "61,13,29", "97,13,75,29,47"];
    let mut t = OrderingTable::new();
    for rule in rules {
        assert_eq!(parse_ordering_rule(&mut t, rule.as_bytes()), Ok(()));
    }
    let mut updates: Vec<Vec<u32>> = Vec::new();
    for line in lines {
        assert_eq!(parse_updates(&mut updates, line.as_bytes()), Ok(()));
    }
    let mut correct = 0;
    let mut incorrect = 0;
    for update in updates.iter_mut() {
        if is_sorted_by(update, &t) == Ok(true) {
            correct += middle_page(update).unwrap();
        } else {
            assert_eq!(sort_by(update, &t), Ok(()));
            incorrect += middle_page(update).unwrap();
        }
    }
    assert_eq!(correct, 143);
    assert_eq!(incorrect, 123);
    assert_eq!(is_sorted_by(&vec![75, 1], &t), Err(OrderingError::UnknownValue(1)));
}

fn chain() -> OrderingTable {
    let mut t = OrderingTable::new();
    for rule in ["1|2", "2|3", "1|3"] {
        assert_eq!(parse_ordering_rule(&mut t, rule.as_bytes()), Ok(()));
    }
    t
}

#[test]
fn update_in_order_is_left_alone() {
    let t = chain();
    let mut update = vec![1, 2, 3];
    assert_eq!(check_update(&mut update, &t), Ok(Checked::Correct(2)));
    assert_eq!(update, vec![1, 2, 3]);
    let mut update = vec![2, 3];
    assert_eq!(check_update(&mut update, &t), Ok(Checked::Correct(3)));
    // A single page is not looked up.
    let mut update = vec![9];
    assert_eq!(check_update(&mut update, &t), Ok(Checked::Correct(9)));
}

#[test]
fn update_out_of_order_is_sorted() {
    let t = chain();
    let mut update = vec![3, 1, 2];
    assert_eq!(check_update(&mut update, &t), Ok(Checked::Repaired(2)));
    assert_eq!(update, vec![1, 2, 3]);
    let mut update = vec![3, 2, 1];
    assert_eq!(check_update(&mut update, &t), Ok(Checked::Repaired(2)));
    assert_eq!(update, vec![1, 2, 3]);
    let mut update = vec![3, 1];
    assert_eq!(check_update(&mut update, &t), Ok(Checked::Repaired(3)));
    assert_eq!(update, vec![1, 3]);
}

#[test]
fn update_that_cannot_be_checked() {
    let t = chain();
    let mut update: Vec<u32> = Vec::new();
    assert_eq!(check_update(&mut update, &t), Err(UpdateError::Empty));
    let mut update = vec![1, 2, 9, 3];
    assert_eq!(check_update(&mut update, &t), Err(UpdateError::UnknownPage(9)));
    assert_eq!(update, vec![1, 2, 9, 3]);
    let mut update = vec![8, 9];
    assert_eq!(check_update(&mut update, &t), Err(UpdateError::UnknownPage(8)));
    // The first pair is out of order and known, so the page is found when sorting.
    let mut update = vec![2, 1, 7, 8];
    assert_eq!(check_update(&mut update, &t), Err(UpdateError::UnknownPage(7)));
    assert_eq!(update, vec![2, 1, 7, 8]);
}

fn lines(text: &[&str]) -> Vec<Vec<u8>> {
    text.iter().map(|l| l.as_bytes().to_vec()).collect()
}

#[test]
fn input_is_rules_then_updates() {
    let (t, updates) = parse_input(&lines(&["1|2", "2|3", "", "3,1,2", "1,2"])).unwrap();
    assert_eq!(t.get_col_idx(1), Some(0));
    assert_eq!(t.get_col_idx(2), Some(1));
    assert_eq!(t.get_col_idx(3), Some(2));
    assert_eq!(t.get_ordering(1, 2), Ok(Ordering::Less));
    assert_eq!(t.get_ordering(3, 2), Ok(Ordering::Greater));
    assert_eq!(updates, vec![vec![3, 1, 2], vec![1, 2]]);
}

#[test]
fn input_may_lack_either_part() {
    let (t, updates) = parse_input(&lines(&[])).unwrap();
    assert_eq!(t.get_col_idx(1), None);
    assert_eq!(updates, Vec::<Vec<u32>>::new());
    let (t, updates) = parse_input(&lines(&["1|2"])).unwrap();
    assert_eq!(t.get_ordering(2, 1), Ok(Ordering::Greater));
    assert_eq!(updates, Vec::<Vec<u32>>::new());
    let (t, updates) = parse_input(&lines(&["", "7", "", "8,9", ""])).unwrap();
    assert_eq!(t.get_col_idx(7), None);
    assert_eq!(updates, vec![vec![7], vec![8, 9]]);
}

#[test]
fn input_stops_at_the_first_bad_line() {
    let bad = |text: &[&str]| parse_input(&lines(text)).err();
    assert_eq!(
        bad(&["1|2", "1,2", "", "x"]),
        Some(InputError { line: 1, error: ParseError::MissingSeparator })
    );
    assert_eq!(
        bad(&["1|2", "1|x", "1,2"]),
        Some(InputError { line: 1, error: ParseError::BadPage })
    );
    assert_eq!(
        bad(&["1|2", "", "1,2", "1|2", "x"]),
        Some(InputError { line: 3, error: ParseError::BadPage })
    );
    // A second empty line does not start the rules again.
    assert_eq!(
        bad(&["1|2", "", "", "2|3"]),
        Some(InputError { line: 3, error: ParseError::BadPage })
    );
}

#[test]
fn sample_puzzle_sums() {
    let text = [
        "47|53", "97|13", "97|61", "97|47", "75|29", "61|13", "75|53", "29|13", "97|29", "53|29",
        "61|53", "97|53", "61|29", "47|13", "75|47", "97|75", "47|61", "75|61", "47|29", "75|13",
        "53|13", "", "75,47,61,53,29", "97,61,53,29,13", "75,29,13", "75,97,47,61,53", "61,13,29",
        "97,13,75,29,47",
    ];
    let (t, mut updates) = parse_input(&lines(&text)).unwrap();
    let mut correct = 0;
    let mut repaired = 0;
    for update in updates.iter_mut() {
        match check_update(update, &t) {
            Ok(Checked::Correct(page)) => correct += page,
            Ok(Checked::Repaired(page)) => repaired += page,
            Err(e) => panic!("{e:?}"),
        }
    }
    assert_eq!((correct, repaired), (143, 123));
}
