//! The token-level pieces: numeric recognition, tokenization, splitting,
//! generated names and spawn argument lists.

use jack_stack::names::{numbered_names, port_name, unit_name};
use jack_stack::numeric::is_numeric;
use jack_stack::spawn::spawn_args;
use jack_stack::tokens::{split_slash, tokenize_text};
use jack_stack::vocab::{default_name_arg, PrimitiveWord};

fn strings(xs: &[&str]) -> Vec<String> {
    xs.iter().map(|s| s.to_string()).collect()
}

#[test]
fn numbers_are_recognized() {
    for t in [
        "0", "440", "440.", "440.5", ".5", "-3", "+3", "-0.25", "1e3", "1E3", "1e-3", "2.5e+7",
        "-.5e2", "inf", "-inf", "Infinity", "nan", "NaN", "+iNf",
    ] {
        assert!(is_numeric(t), "{} should read as a number", t);
    }
}

#[test]
fn words_are_not_numbers() {
    for t in [
        "", "abc", "440hz", "-", "+", ".", "e3", "1e", "1e+", "1.2.3", "constant/440", "4 0",
        "infx", "nana", "in", "--3", "3-", "0x10",
    ] {
        assert!(!is_numeric(t), "{} should not read as a number", t);
    }
}

#[test]
fn patch_text_splits_on_any_whitespace() {
    assert_eq!(tokenize_text("  a  bb\tc\nd  "), strings(&["a", "bb", "c", "d"]));
    assert_eq!(tokenize_text(""), Vec::<String>::new());
    assert_eq!(tokenize_text("   \t\n"), Vec::<String>::new());
    assert_eq!(tokenize_text("one"), strings(&["one"]));
}

#[test]
fn tokens_split_on_slashes_keeping_empty_parts() {
    assert_eq!(split_slash("delay/60"), strings(&["delay", "60"]));
    assert_eq!(split_slash("word"), strings(&["word"]));
    assert_eq!(split_slash("a//b"), strings(&["a", "", "b"]));
    assert_eq!(split_slash("/x"), strings(&["", "x"]));
    assert_eq!(split_slash(""), strings(&[""]));
}

#[test]
fn generated_names_carry_the_slot_number() {
    assert_eq!(unit_name("osc", 0), "osc_0");
    assert_eq!(unit_name("osc", 12), "osc_12");
    assert_eq!(unit_name("constant/440", 3), "constant/440_3");
    assert_eq!(unit_name("x", 1234567890), "x_1234567890");
}

#[test]
fn port_names_are_client_colon_port() {
    assert_eq!(port_name("osc_0", "out"), "osc_0:out");
    assert_eq!(port_name("", "dummy"), ":dummy");
}

#[test]
fn numbered_names_start_at_one() {
    assert_eq!(
        numbered_names("system:playback_", 3),
        strings(&["system:playback_1", "system:playback_2", "system:playback_3"])
    );
    assert_eq!(numbered_names("input_", 0), Vec::<String>::new());
}

#[test]
fn the_default_name_argument_is_the_conventional_flag() {
    assert_eq!(default_name_arg(), "--name");
}

#[test]
fn spawn_arguments_interleave_flags_and_values() {
    let def = PrimitiveWord {
        inputs: strings(&["in"]),
        outputs: strings(&["out"]),
        cmd: "cmd".to_string(),
        name_arg: "--name".to_string(),
        slash_args: Some(strings(&["--a", "--b"])),
        extra_args: Some(strings(&["--x", "1"])),
    };
    assert_eq!(
        spawn_args(&def, &strings(&["7", "8"]), "u_0"),
        strings(&["--x", "1", "--a", "7", "--b", "8", "--name", "u_0"])
    );
    // Missing values leave the trailing flags unset; excess ones are dropped.
    assert_eq!(
        spawn_args(&def, &strings(&["7"]), "u_0"),
        strings(&["--x", "1", "--a", "7", "--b", "--name", "u_0"])
    );
    assert_eq!(
        spawn_args(&def, &strings(&["7", "8", "9"]), "u_0"),
        strings(&["--x", "1", "--a", "7", "--b", "8", "--name", "u_0"])
    );
}

#[test]
fn spawn_arguments_without_slash_args_ignore_values() {
    let def = PrimitiveWord {
        inputs: strings(&[]),
        outputs: strings(&[]),
        cmd: "cmd".to_string(),
        name_arg: "-n".to_string(),
        slash_args: None,
        extra_args: None,
    };
    assert_eq!(spawn_args(&def, &strings(&["7"]), "u_1"), strings(&["-n", "u_1"]));
}
