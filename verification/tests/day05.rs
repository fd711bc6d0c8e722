use rustvent::day05::{Almanac, Mapping, Range, Stage};

fn rule(dest: u64, source: u64, length: u64) -> Mapping {
    Mapping { source, dest, length }
}

/// The seven-stage example almanac: seed, soil, fertilizer, water, light,
/// temperature, humidity, location.
fn example_almanac() -> Almanac {
    Almanac {
        seed_to_soil: Stage::new(vec![rule(50, 98, 2), rule(52, 50, 48)]),
        soil_to_fertilizer: Stage::new(vec![rule(0, 15, 37), rule(37, 52, 2), rule(39, 0, 15)]),
        fertilizer_to_water: Stage::new(vec![
            rule(49, 53, 8),
            rule(0, 11, 42),
            rule(42, 0, 7),
            rule(57, 7, 4),
        ]),
        water_to_light: Stage::new(vec![rule(88, 18, 7), rule(18, 25, 70)]),
        light_to_temperature: Stage::new(vec![rule(45, 77, 23), rule(81, 45, 19), rule(68, 64, 13)]),
        temperature_to_humidity: Stage::new(vec![rule(0, 69, 1), rule(1, 0, 69)]),
        humidity_to_location: Stage::new(vec![rule(60, 56, 37), rule(56, 93, 4)]),
    }
}

#[test]
fn example_seeds_resolve_to_known_locations() {
    let alm = example_almanac();
    assert_eq!(alm.resolve_scalar(79), 82);
    assert_eq!(alm.resolve_scalar(14), 43);
    assert_eq!(alm.resolve_scalar(55), 86);
    assert_eq!(alm.resolve_scalar(13), 35);
}

#[test]
fn example_seed_stage_by_stage() {
    let alm = example_almanac();
    assert_eq!(alm.map_seed_to_soil(79), 81);
    assert_eq!(alm.map_seed_to_fertilizer(79), 81);
    assert_eq!(alm.map_seed_to_water(79), 81);
    assert_eq!(alm.map_seed_to_light(79), 74);
    assert_eq!(alm.map_seed_to_temperature(79), 78);
    assert_eq!(alm.map_seed_to_humidity(79), 78);
    assert_eq!(alm.map_seed_to_location(79), 82);
}

#[test]
fn example_minimum_over_seed_list() {
    let alm = example_almanac();
    let seeds: Vec<u64> = vec![79, 14, 55, 13];
    let min = seeds.iter().map(|s| alm.resolve_scalar(*s)).min().unwrap();
    assert_eq!(min, 35);
}

#[test]
fn example_minimum_over_ranges() {
    let alm = example_almanac();
    let ranges = vec![Range { low: 79, high: 92 }, Range { low: 55, high: 67 }];
    assert_eq!(alm.resolve_minimum(&ranges), Some(46));
}

#[test]
fn minimum_of_no_ranges_is_none() {
    let alm = example_almanac();
    let ranges: Vec<Range> = vec![];
    assert_eq!(alm.resolve_minimum(&ranges), None);
}

#[test]
fn split_example_single_rule() {
    // One rule covering [50, 97], shifted up by 2.
    let stage = Stage::new(vec![rule(52, 50, 48)]);
    let pieces = stage.suggest_splits(Range { low: 45, high: 97 });
    assert_eq!(pieces, vec![Range { low: 45, high: 49 }, Range { low: 50, high: 97 }]);
    // The first piece passes through, the second is offset by +2.
    assert_eq!(stage.map(45), 45);
    assert_eq!(stage.map(49), 49);
    assert_eq!(stage.map(50), 52);
    assert_eq!(stage.map(97), 99);
}

#[test]
fn split_straddling_gap_and_two_rules() {
    let stage = Stage::new(vec![rule(100, 10, 5), rule(200, 20, 5)]);
    let pieces = stage.suggest_splits(Range { low: 8, high: 30 });
    assert_eq!(
        pieces,
        vec![
            Range { low: 8, high: 9 },
            Range { low: 10, high: 14 },
            Range { low: 15, high: 19 },
            Range { low: 20, high: 24 },
            Range { low: 25, high: 30 },
        ]
    );
    // Per-piece uniform offset: endpoints move in lockstep.
    for p in pieces {
        assert_eq!(stage.map(p.high) - stage.map(p.low), p.high - p.low);
    }
}

#[test]
fn empty_stage_is_identity() {
    let stage = Stage::new(vec![]);
    assert_eq!(stage.map(0), 0);
    assert_eq!(stage.map(12345), 12345);
    assert_eq!(stage.unmap(12345), 12345);
    assert_eq!(stage.map(u64::MAX), u64::MAX);
    let r = Range { low: 3, high: 900 };
    assert_eq!(stage.suggest_splits(r), vec![r]);
}

#[test]
fn map_then_unmap_inside_a_rule() {
    let stage = Stage::new(vec![rule(52, 50, 48), rule(50, 98, 2)]);
    for v in [50, 51, 97, 98, 99] {
        assert_eq!(stage.unmap(stage.map(v)), v);
    }
}

#[test]
fn resolve_scalar_inverse_undoes_resolve_scalar_on_example() {
    let alm = example_almanac();
    for seed in [79, 14, 55, 13] {
        let loc = alm.resolve_scalar(seed);
        assert_eq!(alm.resolve_scalar_inverse(loc), seed);
    }
}

#[test]
fn rule_level_lookup() {
    let m = rule(52, 50, 48);
    assert!(m.in_source(50));
    assert!(m.in_source(97));
    assert!(!m.in_source(49));
    assert!(!m.in_source(98));
    assert_eq!(m.map(79), 81);
    assert!(m.in_dest(52));
    assert!(!m.in_dest(51));
    assert_eq!(m.unmap(81), 79);
}

#[test]
fn pipeline_split_covers_input_range_exactly() {
    let alm = example_almanac();
    let range = Range { low: 55, high: 92 };
    let pieces = alm.suggest_splits(range);
    assert_eq!(pieces.first().unwrap().low, 55);
    assert_eq!(pieces.last().unwrap().high, 92);
    for w in pieces.windows(2) {
        assert_eq!(w[0].high + 1, w[1].low);
    }
    // On each piece the whole pipeline is one translation.
    for p in &pieces {
        assert_eq!(
            alm.resolve_scalar(p.high) - alm.resolve_scalar(p.low),
            p.high - p.low
        );
    }
}

#[test]
fn split_of_untouched_range_is_whole() {
    // a rule exists, but far away from the queried range
    let stage = Stage::new(vec![rule(500, 900, 10)]);
    let r = Range { low: 10, high: 20 };
    assert_eq!(stage.suggest_splits(r), vec![r]);
}
