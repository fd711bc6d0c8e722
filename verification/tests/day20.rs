use rustvent::day20::{Module, Pulse, Signal};

fn names(v: &[&str]) -> Vec<String> {
    v.iter().map(|s| s.to_string()).collect()
}

#[test]
fn day20_pulse_flip() {
    let mut p = Pulse::Low;
    p.flip();
    assert_eq!(p, Pulse::High);
    p.flip();
    assert_eq!(p, Pulse::Low);
}

#[test]
fn day20_module_names() {
    let b = Module::Broadcaster(names(&["a", "b"]));
    assert_eq!(b.name(), "broadcaster");
    let f = Module::FlipFlop(("ff".to_string(), vec![], names(&["x"]), Pulse::Low));
    assert_eq!(f.name(), "ff");
    let c = Module::Conjunction(("inv".to_string(), names(&["y"]), vec![]));
    assert_eq!(c.name(), "inv");
}

#[test]
fn day20_target_names() {
    let b = Module::Broadcaster(names(&["a", "b", "c"]));
    assert_eq!(b.target_names(), names(&["a", "b", "c"]));
}

#[test]
fn day20_broadcaster_forwards_pulse() {
    let mut b = Module::Broadcaster(names(&["a", "b"]));
    let out = b.handle_signal(Signal {
        from: "button".to_string(),
        to: "broadcaster".to_string(),
        pulse: Pulse::Low,
    });
    assert_eq!(out.len(), 2);
    assert_eq!(out[0].from, "broadcaster");
    assert_eq!(out[0].to, "a");
    assert_eq!(out[0].pulse, Pulse::Low);
    assert_eq!(out[1].to, "b");
}

#[test]
fn day20_flipflop_ignores_high_and_toggles_on_low() {
    let mut f = Module::FlipFlop(("ff".to_string(), vec![], names(&["x"]), Pulse::Low));
    let high = Signal { from: "a".to_string(), to: "ff".to_string(), pulse: Pulse::High };
    assert_eq!(f.handle_signal(high).len(), 0);
    let low = Signal { from: "a".to_string(), to: "ff".to_string(), pulse: Pulse::Low };
    let out = f.handle_signal(low.clone());
    assert_eq!(out.len(), 1);
    assert_eq!(out[0].pulse, Pulse::High);
    let out2 = f.handle_signal(low);
    assert_eq!(out2[0].pulse, Pulse::Low);
}

#[test]
fn day20_conjunction_remembers_inputs() {
    let mut c = Module::Conjunction(("inv".to_string(), names(&["out"]), vec![]));
    let a = Module::FlipFlop(("a".to_string(), vec![], names(&["inv"]), Pulse::Low));
    let b = Module::FlipFlop(("b".to_string(), vec![], names(&["inv"]), Pulse::Low));
    c.register_input(&a);
    c.register_input(&b);
    // one input high: sends high
    let out = c.handle_signal(Signal {
        from: "a".to_string(),
        to: "inv".to_string(),
        pulse: Pulse::High,
    });
    assert_eq!(out.len(), 1);
    assert_eq!(out[0].pulse, Pulse::High);
    // both inputs high: sends low
    let out2 = c.handle_signal(Signal {
        from: "b".to_string(),
        to: "inv".to_string(),
        pulse: Pulse::High,
    });
    assert_eq!(out2[0].pulse, Pulse::Low);
    assert_eq!(out2[0].from, "inv");
    assert_eq!(out2[0].to, "out");
}

#[test]
fn day20_flipflop_registers_inputs() {
    let mut f = Module::FlipFlop(("ff".to_string(), vec![], names(&["x"]), Pulse::Low));
    let a = Module::Broadcaster(names(&["ff"]));
    f.register_input(&a);
    match f {
        Module::FlipFlop((_, inputs, _, _)) => assert_eq!(inputs, names(&["broadcaster"])),
        _ => panic!("module changed shape"),
    }
}
