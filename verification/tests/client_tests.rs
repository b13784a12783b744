//! Tests for the shell helpers: line splitting and the help text.

use tiny_kv::client::{help, split2};

#[test]
fn test_split2() {
    let ss = "set mykey my long value with other stuff";
    let (cmd, params) = split2(ss);
    assert_eq!(cmd, "set");
    assert!(params.starts_with("mykey"));
}

#[test]
fn test_help() {
    let hlp = help(true);
    println!("{}", hlp);
    let hlp = help(false);
    println!("{}", hlp);
}

#[test]
fn split2_joins_tail_with_single_spaces() {
    let (cmd, params) = split2("set  mykey   my long\tvalue ");
    assert_eq!(cmd, "set");
    assert_eq!(params, "mykey my long value");
}

#[test]
fn split2_of_blank_line_is_empty() {
    let (cmd, params) = split2("   \t  ");
    assert_eq!(cmd, "");
    assert_eq!(params, "");
    let (cmd, params) = split2("");
    assert_eq!(cmd, "");
    assert_eq!(params, "");
}

#[test]
fn split2_single_word_has_empty_tail() {
    let (cmd, params) = split2("dbsize\n");
    assert_eq!(cmd, "dbsize");
    assert_eq!(params, "");
}

#[test]
fn help_texts_differ_by_audience() {
    let banner = help(true);
    assert!(banner.contains("Enter 'quit' to exit"));
    let commands = help(false);
    assert!(commands.contains("Commands:"));
    assert!(commands.contains("loaddb filename"));
}
