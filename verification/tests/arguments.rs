use genchat::args::process_arguments;
use genchat::errors::InvalidArgument;
use genchat::errors::StreamError;

fn strings(items: &[&str]) -> Vec<String> {
    items.iter().map(|s| s.to_string()).collect()
}

#[test]
fn flags_are_recognized_and_sorted_by_priority() {
    let args = process_arguments(strings(&["prog", "-p", "-h", "-a"])).unwrap();
    let cmds: Vec<String> = args.iter().map(|a| a.cmd.clone()).collect();
    assert_eq!(cmds, vec!["-h".to_string(), "-a".to_string(), "-p".to_string()]);
    assert_eq!(args[0].order, 1);
    assert_eq!(args[1].order, 3);
    assert_eq!(args[2].order, 6);
}

#[test]
fn unknown_flags_are_dropped_silently() {
    let args = process_arguments(strings(&["prog", "-z", "-h"])).unwrap();
    assert_eq!(args.len(), 1);
    assert_eq!(args[0].cmd, "-h");
}

#[test]
fn plain_word_argument_is_invalid() {
    assert!(process_arguments(strings(&["prog", "word"])).is_err());
}

#[test]
fn quoted_value_without_a_command_is_invalid() {
    assert!(process_arguments(strings(&["prog", "\"hello\""])).is_err());
}

#[test]
fn quoted_value_attaches_to_the_preceding_flag() {
    let args = process_arguments(strings(&["prog", "-p", "\"hello\""])).unwrap();
    assert_eq!(args.len(), 1);
    assert_eq!(args[0].cmd, "-p");
    // the argument both opens and closes its quote, so the gathered text is empty
    assert_eq!(args[0].value, Some(String::new()));
}

#[test]
fn unclosed_quote_at_the_end_gathers_the_rest() {
    let args = process_arguments(strings(&["prog", "-p", "\"hello"])).unwrap();
    assert_eq!(args.len(), 1);
    assert_eq!(args[0].value, Some("\"hello ".to_string()));
}

#[test]
fn words_after_a_gathered_quote_are_still_invalid() {
    // the scan that gathers a quoted value does not advance the outer
    // walk, so the gathered words are met again as plain words
    assert!(process_arguments(strings(&["prog", "-p", "\"hello", "world\""])).is_err());
}

#[test]
fn no_arguments_after_the_program_name_is_fine() {
    let args = process_arguments(strings(&["prog"])).unwrap();
    assert!(args.is_empty());
}

#[test]
fn error_messages_name_their_stage() {
    assert_eq!(InvalidArgument.message(), "Invalid argument. Use -h to view valid commands.");
    assert_eq!(
        StreamError::Encoding.message(),
        "response frame held bytes that are not valid UTF-8"
    );
    assert_eq!(
        StreamError::Network.message(),
        "network failure while reading the response stream"
    );
    assert_eq!(
        StreamError::Decode { payload: "oops".to_string() }.message(),
        "response frame held a malformed payload: oops"
    );
}

#[test]
fn equal_priority_flags_keep_their_relative_order() {
    // the sort is stable: two commands of the same priority come out
    // in the order they were given
    let args = process_arguments(strings(&["prog", "-p", "\"a\"", "-h", "-p", "\"b\""])).unwrap();
    let ps: Vec<Option<String>> = args
        .iter()
        .filter(|a| a.cmd == "-p")
        .map(|a| a.value.clone())
        .collect();
    assert_eq!(ps, vec![Some(String::new()), Some(String::new())]);
    assert_eq!(args[0].cmd, "-h");
}
