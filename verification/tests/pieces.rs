use poker::hand::grouping::{is_listed, ranks_of_tallies, tallies, unlisted, Tally};
use poker::hand::pairs::matching_pairs;
use poker::hand::strongest_first;
use poker::order::compare_ranks;
use poker::sorting::{reverse, sort_by_weight, sort_heaviest_first, Weighted};
use poker::text::split_at_each;
use poker::Number;
use std::cmp::Ordering;
use std::collections::HashMap;

fn ranks(values: &[u8]) -> Vec<Number> {
    values.iter().map(|v| Number(*v)).collect()
}

#[test]
fn text_is_cut_at_each_separator() {
    assert_eq!(split_at_each("4S 5H 5S 5D 5C", ' '), vec!["4S", "5H", "5S", "5D", "5C"]);
    assert_eq!(split_at_each("", ' '), vec![""]);
    assert_eq!(split_at_each(" ", ' '), vec!["", ""]);
    assert_eq!(split_at_each("a", ' '), vec!["a"]);
    assert_eq!(split_at_each("a  b", ' '), vec!["a", "", "b"]);
    assert_eq!(split_at_each(" a b ", ' '), vec!["", "a", "b", ""]);
    assert_eq!(split_at_each("a,b c", ','), vec!["a", "b c"]);
    assert_eq!(split_at_each("é ♠x", ' '), vec!["é", "♠x"]);
}

#[test]
fn cutting_agrees_with_the_standard_library() {
    for text in ["", " ", "  ", "a b", "ab ", " ab", "10D JH QS KD AC", "a  b   c"] {
        let expected: Vec<&str> = text.split(' ').collect();
        assert_eq!(split_at_each(text, ' '), expected);
    }
}

#[test]
fn ranks_are_sorted_by_strength() {
    let mut v = ranks(&[1, 13, 2, 10, 5]);
    sort_by_weight(&mut v);
    assert_eq!(v, ranks(&[2, 5, 10, 13, 1]));
    let mut v = ranks(&[1, 13, 2, 10, 5]);
    sort_heaviest_first(&mut v);
    assert_eq!(v, ranks(&[1, 13, 10, 5, 2]));
    let mut v = ranks(&[3, 3, 1, 3, 1]);
    sort_by_weight(&mut v);
    assert_eq!(v, ranks(&[3, 3, 3, 1, 1]));
    let mut v: Vec<Number> = vec![];
    sort_by_weight(&mut v);
    assert_eq!(v, ranks(&[]));
    let mut v = ranks(&[7]);
    sort_heaviest_first(&mut v);
    assert_eq!(v, ranks(&[7]));
    assert_eq!(strongest_first(ranks(&[4, 1, 9, 13, 2])), ranks(&[1, 13, 9, 4, 2]));
}

#[test]
fn a_list_is_turned_back_to_front() {
    let mut v = ranks(&[1, 2, 3, 4, 5]);
    reverse(&mut v);
    assert_eq!(v, ranks(&[5, 4, 3, 2, 1]));
    let mut v = ranks(&[1, 2, 3, 4]);
    reverse(&mut v);
    assert_eq!(v, ranks(&[4, 3, 2, 1]));
    let mut v = ranks(&[9]);
    reverse(&mut v);
    assert_eq!(v, ranks(&[9]));
    let mut v: Vec<Number> = vec![];
    reverse(&mut v);
    assert_eq!(v, ranks(&[]));
}

#[test]
fn weights_order_ranks_and_tallies() {
    assert!(Number(13).no_heavier(&Number(1)));
    assert!(!Number(1).no_heavier(&Number(13)));
    assert!(Number(4).no_heavier(&Number(4)));
    let pair_of_aces = Tally { rank: Number(1), pairs: 1 };
    let three_twos = Tally { rank: Number(2), pairs: 3 };
    let pair_of_kings = Tally { rank: Number(13), pairs: 1 };
    assert!(pair_of_aces.no_heavier(&three_twos));
    assert!(!three_twos.no_heavier(&pair_of_aces));
    assert!(pair_of_kings.no_heavier(&pair_of_aces));
    assert!(!pair_of_aces.no_heavier(&pair_of_kings));
    assert!(pair_of_aces.no_heavier(&pair_of_aces));
    let mut entries = vec![pair_of_aces, three_twos, pair_of_kings];
    sort_heaviest_first(&mut entries);
    assert_eq!(ranks_of_tallies(&entries), ranks(&[2, 1, 13]));
}

#[test]
fn sequences_of_ranks_are_compared_position_by_position() {
    assert_eq!(compare_ranks(&ranks(&[4, 9]), &ranks(&[5, 8])), Ordering::Less);
    assert_eq!(compare_ranks(&ranks(&[5, 8]), &ranks(&[5, 8])), Ordering::Equal);
    assert_eq!(compare_ranks(&ranks(&[5, 9]), &ranks(&[5, 8])), Ordering::Greater);
    assert_eq!(compare_ranks(&ranks(&[1, 2]), &ranks(&[13, 12])), Ordering::Greater);
    assert_eq!(compare_ranks(&ranks(&[5]), &ranks(&[5, 8])), Ordering::Less);
    assert_eq!(compare_ranks(&ranks(&[5, 8]), &ranks(&[5])), Ordering::Greater);
    assert_eq!(compare_ranks(&ranks(&[]), &ranks(&[])), Ordering::Equal);
    assert_eq!(compare_ranks(&ranks(&[]), &ranks(&[2])), Ordering::Less);
    assert_eq!(compare_ranks(&ranks(&[6]), &ranks(&[5, 8])), Ordering::Greater);
}

#[test]
fn pairs_of_equal_ranks_are_picked() {
    let pairs = vec![ranks(&[4, 5]), ranks(&[5, 5]), ranks(&[1, 1]), ranks(&[5, 4]), ranks(&[5, 5])];
    assert_eq!(matching_pairs(&pairs), ranks(&[5, 1, 5]));
    assert_eq!(matching_pairs(&vec![]), ranks(&[]));
}

#[test]
fn a_count_map_is_listed() {
    let mut tally: HashMap<u8, usize> = HashMap::new();
    tally.insert(5, 3);
    tally.insert(9, 1);
    tally.insert(1, 1);
    let mut entries = tallies(&tally);
    assert_eq!(entries.len(), 3);
    entries.sort_by_key(|e| e.rank.0);
    assert_eq!((entries[0].rank, entries[0].pairs), (Number(1), 1));
    assert_eq!((entries[1].rank, entries[1].pairs), (Number(5), 3));
    assert_eq!((entries[2].rank, entries[2].pairs), (Number(9), 1));
    assert!(tallies(&HashMap::new()).is_empty());
}

#[test]
fn listed_ranks_are_left_out() {
    let listed = ranks(&[5, 9]);
    assert!(is_listed(&listed, Number(5)));
    assert!(is_listed(&listed, Number(9)));
    assert!(!is_listed(&listed, Number(4)));
    assert!(!is_listed(&ranks(&[]), Number(4)));
    assert_eq!(unlisted(&ranks(&[5, 4, 9, 5, 1]), &listed), ranks(&[4, 1]));
    assert_eq!(unlisted(&ranks(&[5, 4, 9]), &ranks(&[])), ranks(&[5, 4, 9]));
    assert_eq!(unlisted(&ranks(&[5, 9]), &listed), ranks(&[]));
}
