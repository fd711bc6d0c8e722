use rustvent::day04::Card;

#[test]
fn day04_card_one_has_four_winners() {
    let card = Card {
        winning: vec![41, 48, 83, 86, 17],
        actual: vec![83, 86, 6, 31, 17, 9, 48, 53],
    };
    assert_eq!(card.number_of_winning(), 4);
}

#[test]
fn day04_card_with_no_winners() {
    let card = Card { winning: vec![87, 83, 26, 28, 32], actual: vec![88, 30, 70, 12, 93, 22, 82, 36] };
    assert_eq!(card.number_of_winning(), 0);
}

#[test]
fn day04_duplicate_actual_numbers_count_twice() {
    let card = Card { winning: vec![5], actual: vec![5, 5, 3] };
    assert_eq!(card.number_of_winning(), 2);
}

#[test]
fn day04_empty_card() {
    let card = Card { winning: vec![], actual: vec![] };
    assert_eq!(card.number_of_winning(), 0);
}

#[test]
fn day04_example_pile_grows_to_thirty() {
    let cards = vec![
        Card { winning: vec![41, 48, 83, 86, 17], actual: vec![83, 86, 6, 31, 17, 9, 48, 53] },
        Card { winning: vec![13, 32, 20, 16, 61], actual: vec![61, 30, 68, 82, 17, 32, 24, 19] },
        Card { winning: vec![1, 21, 53, 59, 44], actual: vec![69, 82, 63, 72, 16, 21, 14, 1] },
        Card { winning: vec![41, 92, 73, 84, 69], actual: vec![59, 84, 76, 51, 58, 5, 54, 83] },
        Card { winning: vec![87, 83, 26, 28, 32], actual: vec![88, 30, 70, 12, 93, 22, 82, 36] },
        Card { winning: vec![31, 18, 13, 56, 72], actual: vec![74, 77, 10, 23, 35, 67, 36, 11] },
    ];
    assert_eq!(rustvent::day04::total_scratchcards(&cards), 30);
}

#[test]
fn day04_pile_of_losing_cards_stays_as_is() {
    let cards = vec![
        Card { winning: vec![1], actual: vec![2] },
        Card { winning: vec![3], actual: vec![4] },
    ];
    assert_eq!(rustvent::day04::total_scratchcards(&cards), 2);
}

#[test]
fn day04_card_scores_double_per_match() {
    assert_eq!(rustvent::day04::card_score(0), 0);
    assert_eq!(rustvent::day04::card_score(1), 1);
    assert_eq!(rustvent::day04::card_score(2), 2);
    assert_eq!(rustvent::day04::card_score(4), 8);
}
