use rustvent::day08::{gcd, lcm, Direction, Mapping, Network};

#[test]
fn day08_gcd_values() {
    assert_eq!(gcd(12, 18), 6);
    assert_eq!(gcd(18, 12), 6);
    assert_eq!(gcd(7, 13), 1);
    assert_eq!(gcd(0, 5), 5);
    assert_eq!(gcd(5, 0), 5);
}

#[test]
fn day08_lcm_values() {
    assert_eq!(lcm(4, 6), 12);
    assert_eq!(lcm(1, 9), 9);
    assert_eq!(lcm(0, 3), 0);
}

fn node(from: &str, left: &str, right: &str) -> Mapping {
    Mapping { from: from.to_string(), left: left.to_string(), right: right.to_string() }
}

#[test]
fn day08_node_step() {
    let n = node("AAA", "BBB", "CCC");
    assert_eq!(n.step(Direction::Left), "BBB");
    assert_eq!(n.step(Direction::Right), "CCC");
}

#[test]
fn day08_network_step() {
    let net = Network {
        mapping: vec![node("AAA", "BBB", "CCC"), node("BBB", "DDD", "EEE"), node("CCC", "ZZZ", "GGG")],
    };
    let from = "AAA".to_string();
    assert_eq!(net.step(&from, Direction::Left), "BBB");
    assert_eq!(net.step(&from, Direction::Right), "CCC");
    let from2 = "CCC".to_string();
    assert_eq!(net.step(&from2, Direction::Left), "ZZZ");
}
