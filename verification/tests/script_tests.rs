use iforgor::registry::Shell;
use iforgor::script::{
    cmd_script_source, confirmation_accepts, parse_choice, parse_u8, powershell_command_line,
    script_source, sh_script_source, ChoiceAnswer,
};

#[test]
fn sh_scripts_get_the_shebang() {
    assert_eq!(sh_script_source("echo hi"), "#!/bin/sh\necho hi");
    assert_eq!(script_source("echo hi", Shell::Sh), "#!/bin/sh\necho hi");
}

#[test]
fn cmd_scripts_get_echo_off() {
    assert_eq!(cmd_script_source("dir"), "@echo off\ndir");
    assert_eq!(script_source("dir", Shell::Cmd), "@echo off\ndir");
}

#[test]
fn powershell_scripts_are_written_verbatim() {
    assert_eq!(script_source("Get-Item .", Shell::Powershell), "Get-Item .");
}

#[test]
fn powershell_command_line_escapes_arguments() {
    let args = vec!["a b".to_string(), "plain".to_string()];
    let line = powershell_command_line("/tmp/script.ps1", &args);
    assert_eq!(line, "& /tmp/script.ps1 'a b' plain");
}

#[test]
fn powershell_command_line_without_arguments() {
    let args: Vec<String> = Vec::new();
    assert_eq!(powershell_command_line("/tmp/s.ps1", &args), "& /tmp/s.ps1");
}

#[test]
fn confirmation_accepts_only_yes_forms() {
    assert!(confirmation_accepts("y"));
    assert!(confirmation_accepts("yes"));
    assert!(confirmation_accepts(" YES \n"));
    assert!(confirmation_accepts("Y"));
    assert!(!confirmation_accepts("n"));
    assert!(!confirmation_accepts(""));
    assert!(!confirmation_accepts("yess"));
}

#[test]
fn parse_u8_accepts_digits_up_to_255() {
    assert_eq!(parse_u8("0"), Some(0));
    assert_eq!(parse_u8("42"), Some(42));
    assert_eq!(parse_u8("255"), Some(255));
    assert_eq!(parse_u8("+7"), Some(7));
    assert_eq!(parse_u8("256"), None);
    assert_eq!(parse_u8(""), None);
    assert_eq!(parse_u8("+"), None);
    assert_eq!(parse_u8("12x"), None);
    assert_eq!(parse_u8("-1"), None);
}

#[test]
fn parse_choice_classifies_answers() {
    assert_eq!(parse_choice("a"), ChoiceAnswer::Abort);
    assert_eq!(parse_choice(" q \n"), ChoiceAnswer::Abort);
    assert_eq!(parse_choice("3"), ChoiceAnswer::Pick(3));
    assert_eq!(parse_choice(" 12 "), ChoiceAnswer::Pick(12));
    assert_eq!(parse_choice("300"), ChoiceAnswer::Invalid);
    assert_eq!(parse_choice("abc"), ChoiceAnswer::Invalid);
    assert_eq!(parse_choice(""), ChoiceAnswer::Invalid);
}
