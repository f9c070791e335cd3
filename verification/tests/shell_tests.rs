use companion_memory::shell::{command_arguments, command_input, command_text_of, read_input, Input};

fn words(list: &[&str]) -> Vec<String> {
    list.iter().map(|w| w.to_string()).collect()
}

#[test]
fn a_line_that_begins_with_a_hash_is_a_command() {
    assert_eq!(command_text_of("#mem clear\n"), Some("mem clear".to_string()));
    assert_eq!(command_text_of("#\n"), Some("".to_string()));
    assert_eq!(command_text_of("#"), Some("".to_string()));
    assert_eq!(command_text_of("##x\n"), Some("#x".to_string()));
    assert_eq!(command_text_of("#caf\u{e9}\n"), Some("caf\u{e9}".to_string()));
}

#[test]
fn any_other_line_is_no_command() {
    assert_eq!(command_text_of("mem clear\n"), None);
    assert_eq!(command_text_of(" #mem clear\n"), None);
    assert_eq!(command_text_of(""), None);
    assert_eq!(command_text_of("\n"), None);
}

#[test]
fn the_arguments_start_with_the_hash() {
    assert_eq!(command_arguments(words(&["mem", "clear"])), words(&["#", "mem", "clear"]));
    assert_eq!(command_arguments(Vec::new()), words(&["#"]));
}

#[test]
fn a_command_line_is_cut_into_words_as_a_shell_would() {
    match read_input("#mem compress -r 0.5\n") {
        Input::Command(arguments) => {
            assert_eq!(arguments, words(&["#", "mem", "compress", "-r", "0.5"]))
        }
        other => panic!("unexpected input: {:?}", other),
    }
    match read_input("#sys \"be brief\" now\\ please 'and kind'\n") {
        Input::Command(arguments) => {
            assert_eq!(arguments, words(&["#", "sys", "be brief", "now please", "and kind"]))
        }
        other => panic!("unexpected input: {:?}", other),
    }
    match read_input("#\n") {
        Input::Command(arguments) => assert_eq!(arguments, words(&["#"])),
        other => panic!("unexpected input: {:?}", other),
    }
}

#[test]
fn a_quote_that_is_never_closed_is_reported() {
    assert!(matches!(read_input("#sys \"be brief\n"), Input::MismatchedQuotes));
    assert!(matches!(read_input("#sys 'be brief\n"), Input::MismatchedQuotes));
    assert!(matches!(command_input(shellwords::split("a 'b")), Input::MismatchedQuotes));
}

#[test]
fn words_that_were_cut_become_a_command() {
    match command_input(shellwords::split("respond")) {
        Input::Command(arguments) => assert_eq!(arguments, words(&["#", "respond"])),
        other => panic!("unexpected input: {:?}", other),
    }
}

#[test]
fn a_line_that_is_no_command_is_said_to_the_assistant() {
    match read_input("  How are you?  \n") {
        Input::Chat(text) => assert_eq!(text, "How are you?"),
        other => panic!("unexpected input: {:?}", other),
    }
    match read_input("\n") {
        Input::Chat(text) => assert_eq!(text, ""),
        other => panic!("unexpected input: {:?}", other),
    }
    match read_input("a # b\n") {
        Input::Chat(text) => assert_eq!(text, "a # b"),
        other => panic!("unexpected input: {:?}", other),
    }
}
