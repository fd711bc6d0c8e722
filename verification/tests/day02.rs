use rustvent::day02::Game;

#[test]
fn day02_possible_game() {
    // Game 1: 3 blue, 4 red; 1 red, 2 green, 6 blue; 2 green
    let game = Game { id: 1, draws: vec![(4, 0, 3), (1, 2, 6), (0, 2, 0)] };
    assert!(game.is_possible((12, 13, 14)));
}

#[test]
fn day02_impossible_game() {
    // Game 3: 8 green, 6 blue, 20 red draws more red than the bag holds
    let game = Game { id: 3, draws: vec![(20, 8, 6), (4, 13, 5), (1, 5, 0)] };
    assert!(!game.is_possible((12, 13, 14)));
}

#[test]
fn day02_empty_game_is_possible() {
    let game = Game { id: 7, draws: vec![] };
    assert!(game.is_possible((0, 0, 0)));
}

#[test]
fn day02_power_of_game_one() {
    let game = Game { id: 1, draws: vec![(4, 0, 3), (1, 2, 6), (0, 2, 0)] };
    assert_eq!(game.get_power(), 4 * 2 * 6);
}

#[test]
fn day02_power_of_empty_game_is_zero() {
    let game = Game { id: 9, draws: vec![] };
    assert_eq!(game.get_power(), 0);
}
