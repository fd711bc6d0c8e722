use rustvent::day12::{count_ways, SpringSet, SpringStatus};

fn parse_row(s: &str) -> Vec<SpringStatus> {
    s.chars()
        .map(|c| match c {
            '.' => SpringStatus::Operational,
            '#' => SpringStatus::Broken,
            _ => SpringStatus::Unknown,
        })
        .collect()
}

#[test]
fn day12_unique_arrangement() {
    assert_eq!(count_ways(&parse_row("???.###"), &vec![1, 1, 3]), 1);
}

#[test]
fn day12_four_arrangements() {
    assert_eq!(count_ways(&parse_row(".??..??...?##."), &vec![1, 1, 3]), 4);
}

#[test]
fn day12_ten_arrangements() {
    assert_eq!(count_ways(&parse_row("?###????????"), &vec![3, 2, 1]), 10);
}

#[test]
fn day12_no_arrangement() {
    assert_eq!(count_ways(&parse_row("..."), &vec![1]), 0);
}

#[test]
fn day12_empty_row_empty_chains() {
    assert_eq!(count_ways(&vec![], &vec![]), 1);
}

#[test]
fn day12_unfold_quintuples() {
    let set = SpringSet { statuses: parse_row(".#"), broken_chains: vec![1] };
    let unfolded = set.unfold();
    assert_eq!(unfolded.statuses, parse_row(".#?.#?.#?.#?.#"));
    assert_eq!(unfolded.broken_chains, vec![1, 1, 1, 1, 1]);
}

#[test]
fn day12_unfolded_count() {
    let set = SpringSet { statuses: parse_row("???.###"), broken_chains: vec![1, 1, 3] };
    assert_eq!(set.unfold().count_possibles(), 1);
}

#[test]
fn day12_count_possibles_matches_count_ways() {
    let set = SpringSet { statuses: parse_row(".??..??...?##."), broken_chains: vec![1, 1, 3] };
    assert_eq!(set.count_possibles(), 4);
}
