use constituency::constituent::{leaves_of, Constituent};
use constituency::merge::{merge_request, parse_indices, select_and_merge, MergeError};

fn word(w: &str) -> Constituent<'_> {
    Constituent::Word(w)
}

fn pair<'a>(l: Constituent<'a>, r: Constituent<'a>) -> Constituent<'a> {
    Constituent::Pair(Box::new(l), Box::new(r))
}

#[test]
fn the_cat_sat_folds_into_one_tree() {
    let mut row = leaves_of("the cat sat");
    assert_eq!(row.len(), 3);
    assert_eq!(merge_request(&mut row, "1 2"), Ok(()));
    assert_eq!(merge_request(&mut row, "1 2"), Ok(()));
    assert_eq!(row.len(), 1);
    assert_eq!(row[0], pair(pair(word("the"), word("cat")), word("sat")));
    assert_eq!(row[0].display(), "[[the] [cat]] [sat]");
}

#[test]
fn out_of_range_request_is_refused() {
    let mut row = leaves_of("the cat sat");
    assert_eq!(merge_request(&mut row, "2 4"), Err(MergeError::OutOfRange));
    assert_eq!(row, vec![word("the"), word("cat"), word("sat")]);
    assert_eq!(select_and_merge(&mut row, 0, 1), Err(MergeError::OutOfRange));
    assert_eq!(row.len(), 3);
}

#[test]
fn distant_request_is_refused() {
    let mut row = leaves_of("the cat sat");
    assert_eq!(merge_request(&mut row, "1 3"), Err(MergeError::NotAdjacent));
    assert_eq!(row, vec![word("the"), word("cat"), word("sat")]);
}

#[test]
fn same_position_is_refused() {
    let mut row = leaves_of("the cat sat");
    assert_eq!(merge_request(&mut row, "2 2"), Err(MergeError::SamePosition));
    assert_eq!(row.len(), 3);
}

#[test]
fn malformed_request_is_refused() {
    let mut row = leaves_of("the cat sat");
    assert_eq!(merge_request(&mut row, "one two"), Err(MergeError::Malformed));
    assert_eq!(merge_request(&mut row, "1 2 3"), Err(MergeError::Malformed));
    assert_eq!(merge_request(&mut row, "0 1"), Err(MergeError::Malformed));
    assert_eq!(row.len(), 3);
}

#[test]
fn positions_in_either_order_are_the_same_request() {
    let mut a = leaves_of("a b c");
    let mut b = leaves_of("a b c");
    assert_eq!(merge_request(&mut a, "2 3"), Ok(()));
    assert_eq!(merge_request(&mut b, "3 2"), Ok(()));
    assert_eq!(a, b);
    assert_eq!(a, vec![word("a"), pair(word("b"), word("c"))]);
}

#[test]
fn every_merge_order_ends_after_n_minus_one_merges() {
    let orders: Vec<Vec<(usize, usize)>> = vec![
        vec![(1, 2), (1, 2), (1, 2)],
        vec![(3, 4), (2, 3), (1, 2)],
        vec![(2, 3), (1, 2), (1, 2)],
        vec![(1, 2), (2, 3), (1, 2)],
    ];
    for order in orders {
        let mut row = leaves_of("we saw the dog");
        for (k, (i, j)) in order.iter().enumerate() {
            assert_eq!(select_and_merge(&mut row, *i, *j), Ok(()));
            assert_eq!(row.len(), 3 - k);
        }
        assert_eq!(row.len(), 1);
        let mut words = Vec::new();
        collect_words(&row[0], &mut words);
        assert_eq!(words, vec!["we", "saw", "the", "dog"]);
        assert_eq!(count_pairs(&row[0]), 3);
    }
}

fn collect_words<'a>(c: &Constituent<'a>, out: &mut Vec<&'a str>) {
    match c {
        Constituent::Word(w) => out.push(w),
        Constituent::Pair(l, r) => {
            collect_words(l, out);
            collect_words(r, out);
        }
    }
}

fn count_pairs(c: &Constituent<'_>) -> usize {
    match c {
        Constituent::Word(_) => 0,
        Constituent::Pair(l, r) => 1 + count_pairs(l) + count_pairs(r),
    }
}

#[test]
fn refused_requests_do_not_count_as_merges() {
    let mut row = leaves_of("a b c");
    assert!(merge_request(&mut row, "1 3").is_err());
    assert!(merge_request(&mut row, "x").is_err());
    assert_eq!(row.len(), 3);
    assert!(merge_request(&mut row, "2 3").is_ok());
    assert!(merge_request(&mut row, "1 2").is_ok());
    assert_eq!(row.len(), 1);
}

#[test]
fn a_single_word_needs_no_merge() {
    let mut row = leaves_of("hello");
    assert_eq!(row.len(), 1);
    assert_eq!(merge_request(&mut row, "1 2"), Err(MergeError::OutOfRange));
    assert_eq!(merge_request(&mut row, "1 1"), Err(MergeError::SamePosition));
    assert_eq!(row, vec![word("hello")]);
}

#[test]
fn indices_are_read_between_any_non_digits() {
    assert_eq!(parse_indices("2 3"), Some((2, 3)));
    assert_eq!(parse_indices("  3, 2\n"), Some((2, 3)));
    assert_eq!(parse_indices("merge 4 and 5"), Some((4, 5)));
    assert_eq!(parse_indices("1x2"), Some((1, 2)));
    assert_eq!(parse_indices("07-8"), Some((7, 8)));
}

#[test]
fn indices_that_are_not_two_positive_numbers_are_refused() {
    assert_eq!(parse_indices(""), None);
    assert_eq!(parse_indices("5"), None);
    assert_eq!(parse_indices("1 2 3"), None);
    assert_eq!(parse_indices("0 2"), None);
    assert_eq!(parse_indices("1 99999999999999999999999"), None);
    // Numeric characters other than ASCII digits make a run that is no number.
    assert_eq!(parse_indices("1\u{bd}2"), None);
    assert_eq!(parse_indices("\u{663} 2"), None);
}
