//! Driving the interpreter through whole evaluations: spawning, wiring,
//! re-pinning and garbage collection, with the driver played by the test.

use jack_stack::stack::{Action, EvalError, EvalStep, Stack};
use jack_stack::vocab::{CompoundWord, Config, PrimitiveWord, Vocabulary, WordDefinition};

fn strings(xs: &[&str]) -> Vec<String> {
    xs.iter().map(|s| s.to_string()).collect()
}

fn prim(inputs: &[&str], outputs: &[&str], cmd: &str) -> WordDefinition {
    WordDefinition::Primitive(PrimitiveWord {
        inputs: strings(inputs),
        outputs: strings(outputs),
        cmd: cmd.to_string(),
        name_arg: "--name".to_string(),
        slash_args: None,
        extra_args: None,
    })
}

fn prim_full(
    inputs: &[&str],
    outputs: &[&str],
    cmd: &str,
    slash_args: &[&str],
    extra_args: &[&str],
) -> WordDefinition {
    WordDefinition::Primitive(PrimitiveWord {
        inputs: strings(inputs),
        outputs: strings(outputs),
        cmd: cmd.to_string(),
        name_arg: "--name".to_string(),
        slash_args: Some(strings(slash_args)),
        extra_args: Some(strings(extra_args)),
    })
}

fn compound(expansion: &str) -> WordDefinition {
    WordDefinition::Compound(CompoundWord { expansion: expansion.to_string() })
}

fn test_config() -> Config {
    let mut words = Vocabulary::new();
    words.insert("src".to_string(), prim(&[], &["out"], "srccmd"));
    words.insert("cons".to_string(), prim(&["in"], &[], "conscmd"));
    words.insert("pair".to_string(), prim(&[], &["a", "b"], "paircmd"));
    words.insert("take2".to_string(), prim(&["x", "y"], &[], "take2cmd"));
    words.insert("duo".to_string(), prim(&[], &["l", "r"], "duocmd"));
    words.insert("thru".to_string(), prim(&["in"], &["out"], "thrucmd"));
    words.insert(
        "constant".to_string(),
        prim_full(&[], &["out"], "constcmd", &["--value"], &[]),
    );
    words.insert("two_srcs".to_string(), compound("src src"));
    words.insert("endless".to_string(), compound("endless"));
    assert!(words.well_formed());
    Config { words }
}

fn sink(n: usize) -> Vec<String> {
    (1..=n).map(|i| format!("sink:input_{}", i)).collect()
}

/// Drives one whole evaluation, answering every request with
/// `decide(action)`; returns all actions in order and the reported error.
fn run_with(
    st: &mut Stack,
    text: &str,
    config: &Config,
    decide: &dyn Fn(&Action) -> bool,
) -> (Vec<Action>, Option<EvalError>) {
    st.eval(text);
    let mut actions: Vec<Action> = Vec::new();
    let mut fuel = 100000;
    let mut pending = st.step(config);
    loop {
        fuel -= 1;
        assert!(fuel > 0, "evaluation did not finish");
        match pending {
            EvalStep::Working => {
                pending = st.step(config);
            }
            EvalStep::Request(a) => {
                let ok = decide(&a);
                actions.push(a);
                pending = st.resume(ok);
            }
            EvalStep::Finish { actions: tail, error } => {
                actions.extend(tail);
                return (actions, error);
            }
        }
    }
}

fn run(st: &mut Stack, text: &str, config: &Config) -> (Vec<Action>, Option<EvalError>) {
    run_with(st, text, config, &|_| true)
}

fn connect(src: &str, dst: &str) -> Action {
    Action::Connect { src: src.to_string(), dst: dst.to_string() }
}

fn disconnect_all(port: &str) -> Action {
    Action::DisconnectAll { port: port.to_string() }
}

#[test]
fn producer_outputs_meet_consumer_inputs_in_declaration_order() {
    let config = test_config();
    let mut st = Stack::new(sink(1));
    let (actions, error) = run(&mut st, "pair take2", &config);
    assert!(error.is_none());
    // pair_0 declares outputs [a, b]; take2_1 declares inputs [x, y].
    // Popping top first, b is wired first — to the last input y — so the
    // declaration orders line up: a -> x and b -> y, never crossed.
    let connects: Vec<&Action> = actions
        .iter()
        .filter(|a| matches!(a, Action::Connect { .. }))
        .collect();
    assert_eq!(connects.len(), 2);
    assert_eq!(*connects[0], connect("pair_0:b", "take2_1:y"));
    assert_eq!(*connects[1], connect("pair_0:a", "take2_1:x"));
}

#[test]
fn spawn_action_carries_command_name_and_readiness_data() {
    let config = test_config();
    let mut st = Stack::new(sink(1));
    let (actions, error) = run(&mut st, "thru cons", &config);
    assert!(error.is_some()); // thru needs an input; nothing on the stack
    assert!(matches!(error, Some(EvalError::NotEnoughInputs { ref word }) if word == "thru"));
    assert!(actions.is_empty());

    let mut st = Stack::new(sink(1));
    let (actions, error) = run(&mut st, "src", &config);
    assert!(error.is_none());
    match &actions[0] {
        Action::Spawn { idx, cmd, args, name, expected_ports, probe_port } => {
            assert_eq!(*idx, 0);
            assert_eq!(cmd, "srccmd");
            assert_eq!(name, "src_0");
            assert_eq!(args, &strings(&["--name", "src_0"]));
            assert_eq!(*expected_ports, 1);
            assert_eq!(probe_port.as_deref(), Some("src_0:out"));
        }
        other => panic!("expected a spawn first, got {:?}", other),
    }
}

#[test]
fn consumer_without_outputs_has_no_probe_port() {
    let config = test_config();
    let mut st = Stack::new(sink(1));
    let (actions, error) = run(&mut st, "src cons", &config);
    assert!(error.is_none());
    match &actions[1] {
        Action::Spawn { expected_ports, probe_port, name, .. } => {
            assert_eq!(name, "cons_1");
            assert_eq!(*expected_ports, 1);
            assert!(probe_port.is_none());
        }
        other => panic!("expected the consumer spawn, got {:?}", other),
    }
}

#[test]
fn dup_duplicates_the_top_element() {
    let config = test_config();
    let mut st = Stack::new(sink(1));
    run(&mut st, "src dup", &config);
    assert_eq!(st.depth(), 2);
    assert_eq!(st.element_at(0).port, "src_0:out");
    assert_eq!(st.element_at(1).port, "src_0:out");
    assert_eq!(st.element_at(0).idx, 0);
    assert_eq!(st.element_at(1).idx, 0);
}

#[test]
fn swap_exchanges_the_top_two_elements() {
    let config = test_config();
    let mut st = Stack::new(sink(1));
    run(&mut st, "src src swap", &config);
    assert_eq!(st.depth(), 2);
    assert_eq!(st.element_at(0).port, "src_1:out");
    assert_eq!(st.element_at(1).port, "src_0:out");
}

#[test]
fn rot_rotates_the_top_three_elements() {
    let config = test_config();
    let mut st = Stack::new(sink(1));
    run(&mut st, "src src src rot", &config);
    // a b c -> b c a
    assert_eq!(st.depth(), 3);
    assert_eq!(st.element_at(0).port, "src_1:out");
    assert_eq!(st.element_at(1).port, "src_2:out");
    assert_eq!(st.element_at(2).port, "src_0:out");
}

#[test]
fn swap_on_short_stack_aborts_and_leaves_the_stack_alone() {
    let config = test_config();
    let mut st = Stack::new(sink(1));
    let (actions, error) = run(&mut st, "swap src", &config);
    assert!(matches!(error, Some(EvalError::StackUnderflow)));
    // The src token after the failed swap was never evaluated.
    assert!(actions.iter().all(|a| !matches!(a, Action::Spawn { .. })));
    assert_eq!(st.depth(), 0);
}

#[test]
fn rot_on_short_stack_aborts_and_leaves_the_stack_alone() {
    let config = test_config();
    let mut st = Stack::new(sink(1));
    let (_, error) = run(&mut st, "src src rot src", &config);
    assert!(matches!(error, Some(EvalError::StackUnderflow)));
    assert_eq!(st.depth(), 2);
    assert_eq!(st.element_at(0).port, "src_0:out");
    assert_eq!(st.element_at(1).port, "src_1:out");
}

#[test]
fn pop_and_clear_never_fail() {
    let config = test_config();
    let mut st = Stack::new(sink(1));
    let (_, error) = run(&mut st, "pop clear", &config);
    assert!(error.is_none());
    run(&mut st, "src src pop", &config);
    assert_eq!(st.depth(), 1);
    let (_, error) = run(&mut st, "clear", &config);
    assert!(error.is_none());
    assert_eq!(st.depth(), 0);
}

#[test]
fn numeric_token_behaves_exactly_like_its_constant_form() {
    let config = test_config();
    let mut a = Stack::new(sink(1));
    let (actions_sugar, err_a) = run(&mut a, "440", &config);
    let mut b = Stack::new(sink(1));
    let (actions_plain, err_b) = run(&mut b, "constant/440", &config);
    assert!(err_a.is_none() && err_b.is_none());
    assert_eq!(actions_sugar, actions_plain);
    match &actions_sugar[0] {
        Action::Spawn { cmd, args, name, .. } => {
            assert_eq!(cmd, "constcmd");
            assert_eq!(name, "constant/440_0");
            assert_eq!(args, &strings(&["--value", "440", "--name", "constant/440_0"]));
        }
        other => panic!("expected a spawn first, got {:?}", other),
    }
}

#[test]
fn fractional_and_signed_numbers_are_sugar_too() {
    let config = test_config();
    let mut st = Stack::new(sink(1));
    let (actions, error) = run(&mut st, "-0.5", &config);
    assert!(error.is_none());
    assert!(matches!(&actions[0], Action::Spawn { name, .. } if name == "constant/-0.5_0"));
}

#[test]
fn transitive_inputs_survive_collection() {
    let config = test_config();
    let mut st = Stack::new(sink(1));
    // a_0 feeds thru_1 feeds thru_2; only thru_2's output is on the stack,
    // yet all three stay, being its transitive inputs.
    let (actions, error) = run(&mut st, "src thru thru", &config);
    assert!(error.is_none());
    assert!(actions.iter().all(|a| !matches!(a, Action::Release { .. })));
    assert_eq!(st.depth(), 1);
    assert_eq!(st.element_at(0).port, "thru_2:out");
    assert!(st.unit_alive(0) && st.unit_alive(1) && st.unit_alive(2));
}

#[test]
fn discarded_unit_is_released_by_collection() {
    let config = test_config();
    let mut st = Stack::new(sink(1));
    run(&mut st, "src thru thru", &config);
    // src_3 is created and popped again: nothing on the stack refers to
    // it, so it is released at the end of that very evaluation.
    let (actions, error) = run(&mut st, "src pop", &config);
    assert!(error.is_none());
    let releases: Vec<&Action> = actions
        .iter()
        .filter(|a| matches!(a, Action::Release { .. }))
        .collect();
    assert_eq!(releases.len(), 1);
    assert_eq!(*releases[0], Action::Release { idx: 3 });
    assert!(!st.unit_alive(3));
    assert!(st.unit_alive(0) && st.unit_alive(1) && st.unit_alive(2));
}

#[test]
fn clearing_the_stack_releases_everything_on_the_next_collection() {
    let config = test_config();
    let mut st = Stack::new(sink(1));
    run(&mut st, "src thru", &config);
    let (actions, error) = run(&mut st, "clear", &config);
    assert!(error.is_none());
    assert_eq!(
        actions,
        vec![Action::Release { idx: 0 }, Action::Release { idx: 1 }]
    );
    assert!(!st.unit_alive(0) && !st.unit_alive(1));
}

#[test]
fn empty_patch_changes_nothing_and_repins_the_same_sources() {
    let config = test_config();
    // On a fresh machine the empty patch does nothing at all.
    let mut st = Stack::new(sink(2));
    let (actions, error) = run(&mut st, "", &config);
    assert!(error.is_none());
    assert!(actions.is_empty());
    assert_eq!(st.depth(), 0);
    assert_eq!(st.unit_count(), 0);
    // With a live patch, the empty patch spawns and releases nothing and
    // re-pins exactly the sources that are already pinned.
    let (after_src, _) = run(&mut st, "src", &config);
    let repin: Vec<&Action> = after_src
        .iter()
        .filter(|a| !matches!(a, Action::Spawn { .. }))
        .collect();
    let (again, error) = run(&mut st, "", &config);
    assert!(error.is_none());
    assert_eq!(st.depth(), 1);
    assert!(again.iter().all(|a| !matches!(a, Action::Spawn { .. })));
    assert!(again.iter().all(|a| !matches!(a, Action::Release { .. })));
    assert_eq!(again.iter().collect::<Vec<_>>(), repin);
}

#[test]
fn undefined_word_reports_and_spawns_nothing() {
    let config = test_config();
    let mut st = Stack::new(sink(1));
    let (actions, error) = run(&mut st, "nope", &config);
    assert!(matches!(error, Some(EvalError::UndefinedWord { ref word }) if word == "nope"));
    assert!(actions.is_empty());
    assert_eq!(st.depth(), 0);
    assert_eq!(st.unit_count(), 0);
}

#[test]
fn undefined_word_aborts_remaining_tokens_but_keeps_earlier_work() {
    let config = test_config();
    let mut st = Stack::new(sink(1));
    let (actions, error) = run(&mut st, "src nope src", &config);
    assert!(matches!(error, Some(EvalError::UndefinedWord { ref word }) if word == "nope"));
    let spawns = actions.iter().filter(|a| matches!(a, Action::Spawn { .. })).count();
    assert_eq!(spawns, 1);
    assert_eq!(st.depth(), 1);
}

#[test]
fn two_outputs_cycle_over_four_sink_inputs() {
    let config = test_config();
    let mut st = Stack::new(sink(4));
    let (actions, error) = run(&mut st, "duo", &config);
    assert!(error.is_none());
    let tail: Vec<&Action> = actions
        .iter()
        .filter(|a| !matches!(a, Action::Spawn { .. }))
        .collect();
    // All four sink inputs are cleared, then fed from the two-port group,
    // cycling: the topmost port is the last declared output r.
    assert_eq!(tail.len(), 8);
    assert_eq!(*tail[0], disconnect_all("sink:input_1"));
    assert_eq!(*tail[1], disconnect_all("sink:input_2"));
    assert_eq!(*tail[2], disconnect_all("sink:input_3"));
    assert_eq!(*tail[3], disconnect_all("sink:input_4"));
    assert_eq!(*tail[4], connect("duo_0:r", "sink:input_1"));
    assert_eq!(*tail[5], connect("duo_0:l", "sink:input_2"));
    assert_eq!(*tail[6], connect("duo_0:r", "sink:input_3"));
    assert_eq!(*tail[7], connect("duo_0:l", "sink:input_4"));
}

#[test]
fn only_the_top_group_is_pinned_to_the_sink() {
    let config = test_config();
    let mut st = Stack::new(sink(2));
    let (actions, error) = run(&mut st, "src pair", &config);
    assert!(error.is_none());
    let connects: Vec<&Action> = actions
        .iter()
        .filter(|a| matches!(a, Action::Connect { .. }))
        .collect();
    // Only pair_1's two ports form the output bus; src_0 is not pinned.
    assert_eq!(connects.len(), 2);
    assert_eq!(*connects[0], connect("pair_1:b", "sink:input_1"));
    assert_eq!(*connects[1], connect("pair_1:a", "sink:input_2"));
}

#[test]
fn failed_spawn_aborts_and_admits_no_unit() {
    let config = test_config();
    let mut st = Stack::new(sink(1));
    let (actions, error) =
        run_with(&mut st, "src src", &config, &|a| !matches!(a, Action::Spawn { .. }));
    assert!(matches!(error, Some(EvalError::SpawnFailed)));
    let spawns = actions.iter().filter(|a| matches!(a, Action::Spawn { .. })).count();
    assert_eq!(spawns, 1);
    assert_eq!(st.unit_count(), 0);
    assert_eq!(st.depth(), 0);
}

#[test]
fn failed_connection_aborts_and_the_half_wired_unit_is_collected() {
    let config = test_config();
    let mut st = Stack::new(sink(1));
    let (actions, error) =
        run_with(&mut st, "src cons", &config, &|a| !matches!(a, Action::Connect { .. }));
    assert!(matches!(error, Some(EvalError::ConnectFailed)));
    // cons_1 was admitted but pushed no outputs; the stack is empty, so
    // both units fall to the collector.
    assert_eq!(st.depth(), 0);
    assert!(!st.unit_alive(0) && !st.unit_alive(1));
    assert!(actions.contains(&Action::Release { idx: 0 }));
    assert!(actions.contains(&Action::Release { idx: 1 }));
}

#[test]
fn compound_word_expands_to_its_words() {
    let config = test_config();
    let mut st = Stack::new(sink(1));
    let (actions, error) = run(&mut st, "two_srcs", &config);
    assert!(error.is_none());
    let names: Vec<&String> = actions
        .iter()
        .filter_map(|a| match a {
            Action::Spawn { name, .. } => Some(name),
            _ => None,
        })
        .collect();
    assert_eq!(names, vec!["src_0", "src_1"]);
    assert_eq!(st.depth(), 2);
}

#[test]
fn cyclic_compound_expansion_is_cut_off() {
    let config = test_config();
    let mut st = Stack::new(sink(1));
    let (actions, error) = run(&mut st, "endless", &config);
    assert!(matches!(error, Some(EvalError::TooDeep)));
    assert!(actions.is_empty());
}

#[test]
fn excess_positional_values_are_dropped_and_missing_ones_leave_flags_trailing() {
    let mut words = Vocabulary::new();
    words.insert(
        "mix".to_string(),
        prim_full(&[], &["out"], "mixcmd", &["--gain", "--pan"], &["--fixed"]),
    );
    let config = Config { words };
    assert!(config.words.well_formed());

    let mut st = Stack::new(sink(1));
    let (actions, _) = run(&mut st, "mix/3/4/5", &config);
    match &actions[0] {
        Action::Spawn { args, .. } => {
            assert_eq!(
                args,
                &strings(&["--fixed", "--gain", "3", "--pan", "4", "--name", "mix/3/4/5_0"])
            );
        }
        other => panic!("expected a spawn, got {:?}", other),
    }

    let mut st = Stack::new(sink(1));
    let (actions, _) = run(&mut st, "mix/3", &config);
    match &actions[0] {
        Action::Spawn { args, .. } => {
            assert_eq!(
                args,
                &strings(&["--fixed", "--gain", "3", "--pan", "--name", "mix/3_0"])
            );
        }
        other => panic!("expected a spawn, got {:?}", other),
    }
}

#[test]
fn slot_numbering_continues_across_evaluations() {
    let config = test_config();
    let mut st = Stack::new(sink(1));
    run(&mut st, "src", &config);
    run(&mut st, "src", &config);
    assert_eq!(st.unit_count(), 2);
    assert_eq!(st.element_at(1).port, "src_1:out");
}
