//! Readiness of a freshly spawned unit. The audio server gives no signal
//! that a client is active, so readiness is inferred in two phases: first
//! the count of the unit's registered ports is polled until it reaches the
//! expected total, then one of its output ports is probed — connected to the
//! safety sink's dummy input and torn down again — until the connection
//! succeeds. The decisions live here; the driver performs the counting and
//! probing and sleeps between polls. An optional poll budget turns a unit
//! that never comes up into a distinct failure instead of an endless wait.

use vstd::prelude::*;

verus! {

#[derive(PartialEq, Eq, Structural, Clone, Copy, Debug)]
pub enum ReadinessState {
    /// Waiting for all declared ports to be registered.
    CountingPorts,
    /// Waiting for the first output port to accept a probe connection.
    Probing,
    /// The unit's client is active and its ports are connectable.
    Ready,
    /// The poll budget ran out: the unit never became ready.
    Failed,
}

pub struct Readiness {
    expected_ports: usize,
    needs_probe: bool,
    budget: Option<usize>,
    state: ReadinessState,
}

impl Readiness {
    pub closed spec fn state(self) -> ReadinessState {
        self.state
    }

    pub closed spec fn expected(self) -> usize {
        self.expected_ports
    }

    pub closed spec fn budget_left(self) -> Option<usize> {
        self.budget
    }

    /// The state after one unsuccessful poll: the budget shrinks, and a
    /// spent budget means failure.
    pub open spec fn spec_spend(self, stay: ReadinessState) -> Readiness {
        match self.budget_left() {
            Option::None => self.with_state(stay),
            Option::Some(b) => if b == 0 {
                self.with_state(ReadinessState::Failed)
            } else {
                self.with_budget((b - 1) as usize).with_state(stay)
            },
        }
    }

    pub closed spec fn with_state(self, s: ReadinessState) -> Readiness {
        Readiness { state: s, ..self }
    }

    pub closed spec fn with_budget(self, b: usize) -> Readiness {
        Readiness { budget: Some(b), ..self }
    }

    /// Starts waiting for a unit with `expected_ports` declared ports.
    /// `needs_probe` says whether the unit has an output port to probe;
    /// `budget` limits how many unsuccessful polls are tolerated in all,
    /// absent meaning no limit.
    pub fn new(expected_ports: usize, needs_probe: bool, budget: Option<usize>) -> (r: Readiness)
        ensures
            r.state() == ReadinessState::CountingPorts,
            r.expected() == expected_ports,
            r.budget_left() == budget,
    {
        Readiness { expected_ports, needs_probe, budget, state: ReadinessState::CountingPorts }
    }

    pub fn state_now(&self) -> (r: ReadinessState)
        ensures
            r == self.state(),
    {
        self.state
    }

    /// Feeds one observed count of the unit's registered ports. Once all
    /// expected ports are present the probing phase begins — or, for a unit
    /// with no output to probe, the unit counts as ready.
    pub fn on_port_count(&mut self, count: usize)
        requires
            old(self).state() == ReadinessState::CountingPorts,
        ensures
            final(self).expected() == old(self).expected(),
            count >= old(self).expected() ==> *final(self) == old(self).with_state(
                if old(self).needs_probe_spec() {
                    ReadinessState::Probing
                } else {
                    ReadinessState::Ready
                },
            ),
            count < old(self).expected() ==> *final(self) == old(self).spec_spend(
                ReadinessState::CountingPorts,
            ),
    {
        if count >= self.expected_ports {
            self.state = if self.needs_probe {
                ReadinessState::Probing
            } else {
                ReadinessState::Ready
            };
        } else {
            self.spend(ReadinessState::CountingPorts);
        }
    }

    /// Feeds the outcome of one probe connection attempt.
    pub fn on_probe(&mut self, connected: bool)
        requires
            old(self).state() == ReadinessState::Probing,
        ensures
            connected ==> *final(self) == old(self).with_state(ReadinessState::Ready),
            !connected ==> *final(self) == old(self).spec_spend(ReadinessState::Probing),
    {
        if connected {
            self.state = ReadinessState::Ready;
        } else {
            self.spend(ReadinessState::Probing);
        }
    }

    pub closed spec fn needs_probe_spec(self) -> bool {
        self.needs_probe
    }

    fn spend(&mut self, stay: ReadinessState)
        ensures
            *final(self) == old(self).spec_spend(stay),
    {
        match self.budget {
            None => {
                self.state = stay;
            },
            Some(b) => {
                if b == 0 {
                    self.state = ReadinessState::Failed;
                } else {
                    self.budget = Some(b - 1);
                    self.state = stay;
                }
            },
        }
    }
}

} // verus!
