use rustvent::day19::{Condition, Part, Rule, Workflow};

fn cond(attr: char, operator: char, value: u64) -> Condition {
    Condition { attr, operator, value }
}

#[test]
fn day19_part_value() {
    let p = Part { x: 787, m: 2655, a: 1222, s: 2876 };
    assert_eq!(p.value(), 7540);
}

#[test]
fn day19_condition_matches() {
    let p = Part { x: 787, m: 2655, a: 1222, s: 2876 };
    assert!(cond('a', '<', 2006).matches(&p));
    assert!(!cond('a', '>', 2006).matches(&p));
    assert!(cond('m', '>', 2090).matches(&p));
    assert!(!cond('x', '<', 787).matches(&p));
}

#[test]
fn day19_condition_invert() {
    let c = cond('a', '<', 2006).invert();
    assert_eq!(c.attr, 'a');
    assert_eq!(c.operator, '>');
    assert_eq!(c.value, 2005);
    let c2 = cond('m', '>', 2090).invert();
    assert_eq!(c2.operator, '<');
    assert_eq!(c2.value, 2091);
}

#[test]
fn day19_condition_split_narrows_ranges() {
    let full = ((1, 4000), (1, 4000), (1, 4000), (1, 4000));
    let out = cond('a', '<', 2006).split(&vec![full]);
    assert_eq!(out, vec![((1, 4000), (1, 4000), (1, 2005), (1, 4000))]);
    let out2 = cond('m', '>', 2090).split(&vec![full]);
    assert_eq!(out2, vec![((1, 4000), (2091, 4000), (1, 4000), (1, 4000))]);
}

#[test]
fn day19_condition_split_keeps_collapsed_range() {
    // a cut that would empty the range leaves it untouched
    let narrow = ((1, 4000), (1, 4000), (10, 11), (1, 4000));
    let out = cond('a', '<', 5).split(&vec![narrow]);
    assert_eq!(out, vec![narrow]);
}

#[test]
fn day19_rule_matches() {
    let p = Part { x: 787, m: 2655, a: 1222, s: 2876 };
    let unconditional = Rule { condition: None, action: "A".to_string() };
    assert!(unconditional.matches(&p));
    let guarded = Rule { condition: Some(cond('x', '>', 1000)), action: "R".to_string() };
    assert!(!guarded.matches(&p));
}

#[test]
fn day19_workflow_apply_takes_first_match() {
    // px{a<2006:qkq,m>2090:A,rfg}
    let wf = Workflow {
        name: "px".to_string(),
        rules: vec![
            Rule { condition: Some(cond('a', '<', 2006)), action: "qkq".to_string() },
            Rule { condition: Some(cond('m', '>', 2090)), action: "A".to_string() },
            Rule { condition: None, action: "rfg".to_string() },
        ],
    };
    assert_eq!(wf.apply(&Part { x: 787, m: 2655, a: 1222, s: 2876 }), "qkq");
    assert_eq!(wf.apply(&Part { x: 787, m: 2655, a: 3000, s: 2876 }), "A");
    assert_eq!(wf.apply(&Part { x: 787, m: 100, a: 3000, s: 2876 }), "rfg");
}

#[test]
fn day19_part_is_accepted_through_workflow_chain() {
    let workflows = vec![
        Workflow {
            name: "in".to_string(),
            rules: vec![
                Rule { condition: Some(cond('x', '<', 5)), action: "A".to_string() },
                Rule { condition: None, action: "qq".to_string() },
            ],
        },
        Workflow {
            name: "qq".to_string(),
            rules: vec![
                Rule { condition: Some(cond('m', '>', 10)), action: "A".to_string() },
                Rule { condition: None, action: "R".to_string() },
            ],
        },
    ];
    let small_x = Part { x: 1, m: 1, a: 1, s: 1 };
    assert!(small_x.is_accepted(&workflows));
    let big_m = Part { x: 9, m: 20, a: 1, s: 1 };
    assert!(big_m.is_accepted(&workflows));
    let neither = Part { x: 9, m: 1, a: 1, s: 1 };
    assert!(!neither.is_accepted(&workflows));
}

#[test]
fn day19_accepted_ranges_of_single_cut() {
    let workflows = vec![Workflow {
        name: "in".to_string(),
        rules: vec![
            Rule { condition: Some(cond('s', '<', 1000)), action: "A".to_string() },
            Rule { condition: None, action: "R".to_string() },
        ],
    }];
    let ranges = workflows[0].get_accepted_ranges(&workflows, 1);
    assert_eq!(ranges, vec![((1, 4000), (1, 4000), (1, 4000), (1, 999))]);
}

#[test]
fn day19_accepted_ranges_follow_names() {
    let workflows = vec![
        Workflow {
            name: "in".to_string(),
            rules: vec![
                Rule { condition: Some(cond('x', '>', 3000)), action: "next".to_string() },
                Rule { condition: None, action: "R".to_string() },
            ],
        },
        Workflow {
            name: "next".to_string(),
            rules: vec![
                Rule { condition: Some(cond('m', '<', 11)), action: "A".to_string() },
                Rule { condition: None, action: "R".to_string() },
            ],
        },
    ];
    let ranges = workflows[0].get_accepted_ranges(&workflows, 2);
    assert_eq!(ranges, vec![((3001, 4000), (1, 10), (1, 4000), (1, 4000))]);
}
