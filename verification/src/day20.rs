//! The pulse-propagation puzzle: broadcaster, flip-flop and conjunction
//! modules pass high and low pulses along named wires.  A conjunction's
//! memory of its inputs is kept as a list keyed by input name.

use vstd::prelude::*;

verus! {

#[derive(Debug, Clone, Copy, PartialEq, Eq, Structural)]
pub enum Pulse {
    High,
    Low,
}

pub open spec fn spec_flipped(p: Pulse) -> Pulse {
    match p {
        Pulse::High => Pulse::Low,
        Pulse::Low => Pulse::High,
    }
}

impl Pulse {
    /// Toggle between high and low.
    pub fn flip(&mut self)
        ensures
            *final(self) == spec_flipped(*old(self)),
    {
        *self = match *self {
            Pulse::High => Pulse::Low,
            Pulse::Low => Pulse::High,
        }
    }
}

/// One pulse in flight, from one module to another.
#[derive(Debug, Clone)]
pub struct Signal {
    pub from: String,
    pub to: String,
    pub pulse: Pulse,
}

/// The first entry of the registry carrying the given input name.
pub open spec fn reg_find(reg: Seq<(String, Pulse)>, name: Seq<char>) -> Option<int>
    decreases reg.len(),
{
    if reg.len() == 0 {
        None
    } else if reg[0].0@ == name {
        Some(0int)
    } else {
        match reg_find(reg.drop_first(), name) {
            Some(i) => Some(i + 1),
            None => None,
        }
    }
}

proof fn lemma_reg_find_at(reg: Seq<(String, Pulse)>, name: Seq<char>, k: int)
    requires
        0 <= k < reg.len(),
        forall|j: int| 0 <= j < k ==> (#[trigger] reg[j]).0@ != name,
        reg[k].0@ == name,
    ensures
        reg_find(reg, name) == Some(k),
    decreases k,
{
    if k > 0 {
        assert(forall|j: int| 0 <= j < k - 1 ==> reg.drop_first()[j] == reg[j + 1]);
        lemma_reg_find_at(reg.drop_first(), name, k - 1);
    }
}

proof fn lemma_reg_find_none(reg: Seq<(String, Pulse)>, name: Seq<char>)
    requires
        forall|j: int| 0 <= j < reg.len() ==> (#[trigger] reg[j]).0@ != name,
    ensures
        reg_find(reg, name) is None,
    decreases reg.len(),
{
    if reg.len() > 0 {
        assert(forall|j: int| 0 <= j < reg.len() - 1 ==> reg.drop_first()[j] == reg[j + 1]);
        lemma_reg_find_none(reg.drop_first(), name);
    }
}

/// What a keyed store looks like after setting `name` to `p`: the first
/// entry with that name is overwritten, or a new entry is appended.
pub open spec fn reg_set_post(
    old_reg: Seq<(String, Pulse)>,
    new_reg: Seq<(String, Pulse)>,
    name: Seq<char>,
    p: Pulse,
) -> bool {
    match reg_find(old_reg, name) {
        Some(i) => new_reg == old_reg.update(i, (old_reg[i].0, p)),
        None => {
            &&& new_reg.len() == old_reg.len() + 1
            &&& new_reg.take(old_reg.len() as int) == old_reg
            &&& new_reg.last().0@ == name
            &&& new_reg.last().1 == p
        },
    }
}

/// Every remembered input pulse is high.
pub open spec fn all_high(reg: Seq<(String, Pulse)>) -> bool {
    forall|i: int| 0 <= i < reg.len() ==> (#[trigger] reg[i]).1 == Pulse::High
}

/// A module of the network: the broadcaster forwards pulses unchanged, a
/// flip-flop toggles on low pulses, and a conjunction remembers the last
/// pulse of each input.  The payloads are, in order: the broadcaster's
/// targets; a flip-flop's name, inputs, targets and state; a conjunction's
/// name, targets and input registry.
#[derive(Debug)]
pub enum Module {
    Broadcaster(Vec<String>),
    FlipFlop((String, Vec<String>, Vec<String>, Pulse)),
    Conjunction((String, Vec<String>, Vec<(String, Pulse)>)),
}

impl Module {
    pub open spec fn spec_name(self) -> Seq<char> {
        match self {
            Module::Broadcaster(_) => "broadcaster"@,
            Module::FlipFlop((name, _, _, _)) => name@,
            Module::Conjunction((name, _, _)) => name@,
        }
    }

    pub open spec fn spec_targets(self) -> Seq<String> {
        match self {
            Module::Broadcaster(targets) => targets@,
            Module::FlipFlop((_, _, targets, _)) => targets@,
            Module::Conjunction((_, targets, _)) => targets@,
        }
    }

    /// The module's name; the broadcaster is always called `broadcaster`.
    pub fn name(&self) -> (r: &str)
        ensures
            r@ == self.spec_name(),
    {
        match self {
            Module::Broadcaster(_) => "broadcaster",
            Module::FlipFlop((name, _, _, _)) => name.as_str(),
            Module::Conjunction((name, _, _)) => name.as_str(),
        }
    }

    /// The names of the modules this module sends to.
    pub fn target_names(&self) -> (r: Vec<String>)
        ensures
            r@ == self.spec_targets(),
    {
        let targets: &Vec<String> = match self {
            Module::Broadcaster(targets) => targets,
            Module::FlipFlop((_, _, targets, _)) => targets,
            Module::Conjunction((_, targets, _)) => targets,
        };
        let n = targets.len();
        let mut r: Vec<String> = Vec::new();
        let mut i: usize = 0;
        while i < n
            invariant
                n == targets@.len(),
                targets@ == self.spec_targets(),
                0 <= i <= n,
                r@.len() == i,
                forall|j: int| 0 <= j < i ==> r@[j] == targets@[j],
            decreases n - i,
        {
            r.push(targets[i].clone());
            i = i + 1;
        }
        proof {
            assert(r@ =~= self.spec_targets());
        }
        r
    }

    /// Tell the module about one of its inputs: a conjunction starts
    /// remembering it (as low), a flip-flop lists it, the broadcaster
    /// ignores it.
    pub fn register_input(&mut self, input: &Module)
        ensures
            match (*old(self), *final(self)) {
                (Module::Broadcaster(t1), Module::Broadcaster(t2)) => t1 == t2,
                (
                    Module::FlipFlop((n1, in1, t1, s1)),
                    Module::FlipFlop((n2, in2, t2, s2)),
                ) => {
                    &&& n2 == n1
                    &&& t2 == t1
                    &&& s2 == s1
                    &&& in2@.len() == in1@.len() + 1
                    &&& in2@.take(in1@.len() as int) == in1@
                    &&& in2@.last()@ == input.spec_name()
                },
                (Module::Conjunction((n1, t1, r1)), Module::Conjunction((n2, t2, r2))) => {
                    &&& n2 == n1
                    &&& t2 == t1
                    &&& reg_set_post(r1@, r2@, input.spec_name(), Pulse::Low)
                },
                _ => false,
            },
    {
        let input_name: String = input.name().to_owned();
        match self {
            Module::Broadcaster(_) => {},
            Module::FlipFlop((_, inputs, _, _)) => {
                inputs.push(input_name);
                proof {
                    assert(inputs@.take(inputs@.len() - 1) =~= old(self)->FlipFlop_0.1@);
                }
            },
            Module::Conjunction((_, _, registry)) => {
                reg_set(registry, &input_name, Pulse::Low);
            },
        }
    }
}

/// `out` carries `pulse` from the module named `from` to each of
/// `targets`, in order.
pub open spec fn signals_to(
    out: Seq<Signal>,
    from: Seq<char>,
    targets: Seq<String>,
    pulse: Pulse,
) -> bool {
    &&& out.len() == targets.len()
    &&& forall|i: int|
        0 <= i < out.len() ==> (#[trigger] out[i]).from@ == from && out[i].to@ == targets[i]@
            && out[i].pulse == pulse
}

/// One signal from `from` to every target, in order.
fn make_signals(from: &String, targets: &Vec<String>, pulse: Pulse) -> (out: Vec<Signal>)
    ensures
        signals_to(out@, from@, targets@, pulse),
{
    let n = targets.len();
    let mut out: Vec<Signal> = Vec::new();
    let mut i: usize = 0;
    while i < n
        invariant
            n == targets@.len(),
            0 <= i <= n,
            out@.len() == i,
            forall|j: int|
                0 <= j < i ==> (#[trigger] out@[j]).from@ == from@ && out@[j].to@ == targets@[j]@
                    && out@[j].pulse == pulse,
        decreases n - i,
    {
        out.push(Signal { from: from.clone(), to: targets[i].clone(), pulse });
        i = i + 1;
    }
    out
}

impl Module {
    /// React to one incoming signal.  The broadcaster forwards the pulse;
    /// a flip-flop ignores high pulses and toggles on low ones, sending
    /// its new state; a conjunction records the sender's pulse, then sends
    /// low if it remembers every input high, else high.
    pub fn handle_signal(&mut self, signal: Signal) -> (out: Vec<Signal>)
        ensures
            match (*old(self), *final(self)) {
                (Module::Broadcaster(t1), Module::Broadcaster(t2)) => t1 == t2 && signals_to(
                    out@,
                    "broadcaster"@,
                    t1@,
                    signal.pulse,
                ),
                (
                    Module::FlipFlop((n1, in1, t1, s1)),
                    Module::FlipFlop((n2, in2, t2, s2)),
                ) => if signal.pulse == Pulse::High {
                    n2 == n1 && in2 == in1 && t2 == t1 && s2 == s1 && out@.len() == 0
                } else {
                    &&& n2 == n1
                    &&& in2 == in1
                    &&& t2 == t1
                    &&& s2 == spec_flipped(s1)
                    &&& signals_to(out@, n1@, t1@, spec_flipped(s1))
                },
                (Module::Conjunction((n1, t1, r1)), Module::Conjunction((n2, t2, r2))) => {
                    &&& n2 == n1
                    &&& t2 == t1
                    &&& reg_set_post(r1@, r2@, signal.from@, signal.pulse)
                    &&& signals_to(
                        out@,
                        n1@,
                        t1@,
                        if all_high(r2@) {
                            Pulse::Low
                        } else {
                            Pulse::High
                        },
                    )
                },
                _ => false,
            },
    {
        let own_name: String = self.name().to_owned();
        match self {
            Module::Broadcaster(targets) => make_signals(&own_name, targets, signal.pulse),
            Module::FlipFlop((_, _, targets, state)) => {
                if signal.pulse == Pulse::High {
                    return Vec::new();
                }
                state.flip();
                let pulse = *state;
                make_signals(&own_name, targets, pulse)
            },
            Module::Conjunction((_, targets, registry)) => {
                reg_set(registry, &signal.from, signal.pulse);
                let m = registry.len();
                let mut high = true;
                let mut i: usize = 0;
                while i < m
                    invariant
                        m == registry@.len(),
                        0 <= i <= m,
                        high <==> forall|j: int|
                            0 <= j < i ==> (#[trigger] registry@[j]).1 == Pulse::High,
                    decreases m - i,
                {
                    if !matches!(registry[i].1, Pulse::High) {
                        high = false;
                    }
                    i = i + 1;
                }
                let pulse = if high {
                    Pulse::Low
                } else {
                    Pulse::High
                };
                make_signals(&own_name, targets, pulse)
            },
        }
    }
}

/// Overwrite the first entry with the given name, or append a new one:
/// the keyed-store insert.
fn reg_set(registry: &mut Vec<(String, Pulse)>, name: &String, p: Pulse)
    ensures
        reg_set_post(old(registry)@, final(registry)@, name@, p),
{
    let n = registry.len();
    let mut i: usize = 0;
    while i < n
        invariant
            n == registry@.len(),
            registry@ == old(registry)@,
            0 <= i <= n,
            forall|j: int| 0 <= j < i ==> (#[trigger] registry@[j]).0@ != name@,
        decreases n - i,
    {
        if registry[i].0 == *name {
            proof {
                lemma_reg_find_at(registry@, name@, i as int);
            }
            let key = registry[i].0.clone();
            registry.set(i, (key, p));
            proof {
                assert(registry@ =~= old(registry)@.update(i as int, (old(registry)@[i as int].0, p)));
            }
            return ;
        }
        i = i + 1;
    }
    proof {
        lemma_reg_find_none(registry@, name@);
    }
    registry.push((name.clone(), p));
    proof {
        assert(registry@.take(old(registry)@.len() as int) =~= old(registry)@);
    }
}

} // verus!
