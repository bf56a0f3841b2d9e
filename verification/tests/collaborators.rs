//! The pieces around the interpreter: the vocabulary, the readiness
//! protocol of a freshly spawned unit, and control-message routing.

use jack_stack::osc::{route_packet, ControlPacket, ControlValue, Route};
use jack_stack::readiness::{Readiness, ReadinessState};
use jack_stack::vocab::{CompoundWord, Vocabulary, WordDefinition};

#[test]
fn vocabulary_lookup_finds_the_latest_definition() {
    let mut v = Vocabulary::new();
    v.insert(
        "w".to_string(),
        WordDefinition::Compound(CompoundWord { expansion: "first".to_string() }),
    );
    v.insert(
        "w".to_string(),
        WordDefinition::Compound(CompoundWord { expansion: "second".to_string() }),
    );
    match v.lookup("w") {
        Some(WordDefinition::Compound(c)) => assert_eq!(c.expansion, "second"),
        other => panic!("unexpected lookup result: {:?}", other.is_some()),
    }
    assert!(v.lookup("W").is_none());
    assert!(v.lookup("missing").is_none());
    assert!(v.well_formed());
}

#[test]
fn readiness_counts_ports_then_probes() {
    let mut r = Readiness::new(3, true, None);
    assert_eq!(r.state_now(), ReadinessState::CountingPorts);
    r.on_port_count(0);
    assert_eq!(r.state_now(), ReadinessState::CountingPorts);
    r.on_port_count(2);
    assert_eq!(r.state_now(), ReadinessState::CountingPorts);
    r.on_port_count(3);
    assert_eq!(r.state_now(), ReadinessState::Probing);
    r.on_probe(false);
    assert_eq!(r.state_now(), ReadinessState::Probing);
    r.on_probe(true);
    assert_eq!(r.state_now(), ReadinessState::Ready);
}

#[test]
fn readiness_without_probe_is_ready_once_ports_appear() {
    let mut r = Readiness::new(2, false, None);
    r.on_port_count(2);
    assert_eq!(r.state_now(), ReadinessState::Ready);
}

#[test]
fn readiness_budget_turns_a_stalled_unit_into_a_failure() {
    let mut r = Readiness::new(5, true, Some(2));
    r.on_port_count(1);
    r.on_port_count(1);
    assert_eq!(r.state_now(), ReadinessState::CountingPorts);
    r.on_port_count(1);
    assert_eq!(r.state_now(), ReadinessState::Failed);

    let mut r = Readiness::new(1, true, Some(1));
    r.on_port_count(1);
    r.on_probe(false);
    assert_eq!(r.state_now(), ReadinessState::Probing);
    r.on_probe(false);
    assert_eq!(r.state_now(), ReadinessState::Failed);
}

fn message(addr: &str, args: Option<Vec<ControlValue>>) -> ControlPacket {
    ControlPacket::Message { addr: addr.to_string(), args }
}

#[test]
fn only_eval_messages_with_text_lead_to_evaluation() {
    let p = message("/eval", Some(vec![ControlValue::Text("440 src".to_string())]));
    match route_packet(&p) {
        Route::Eval { text, extra_ignored } => {
            assert_eq!(text, "440 src");
            assert!(!extra_ignored);
        }
        _ => panic!("a text argument to /eval must be evaluated"),
    }
}

#[test]
fn extra_eval_arguments_are_noted_and_ignored() {
    let p = message(
        "/eval",
        Some(vec![ControlValue::Text("src".to_string()), ControlValue::Other]),
    );
    match route_packet(&p) {
        Route::Eval { text, extra_ignored } => {
            assert_eq!(text, "src");
            assert!(extra_ignored);
        }
        _ => panic!("the first text argument must still be evaluated"),
    }
}

#[test]
fn malformed_and_foreign_packets_are_dropped() {
    assert!(matches!(route_packet(&message("/eval", None)), Route::MissingArgs));
    assert!(matches!(route_packet(&message("/eval", Some(vec![]))), Route::NoArgs));
    assert!(matches!(
        route_packet(&message("/eval", Some(vec![ControlValue::Other]))),
        Route::NotText
    ));
    assert!(matches!(route_packet(&message("/other", None)), Route::OtherAddress));
    assert!(matches!(route_packet(&ControlPacket::Bundle), Route::Bundle));
}
