use genchat::file_io::FileIO;
use genchat::file_io::FileIOMessage;
use genchat::file_io::FileOp;
use genchat::file_io::Message;

fn write_msg(text: &str, file_name: &str) -> FileIOMessage {
    FileIOMessage {
        text: text.to_string(),
        message: Message::Write,
        file_name: file_name.to_string(),
    }
}

fn remove_msg() -> FileIOMessage {
    FileIOMessage { text: String::new(), message: Message::Remove, file_name: String::new() }
}

#[test]
fn python_block_creates_py_file_with_exact_body() {
    let mut io = FileIO::new();
    let ops = io.handle_message(write_msg("```python\nprint(\"hi\")\n```", "prompt"));
    assert_eq!(io.files().len(), 1);
    assert_eq!(io.files()[0], "responses/0_prompt.py");
    assert_eq!(ops.len(), 1);
    match &ops[0] {
        FileOp::Append { path, text } => {
            assert_eq!(path, "responses/0_prompt.py");
            assert_eq!(text, "print(\"hi\")\n");
        }
        FileOp::Delete { .. } => panic!("expected an append"),
    }
}

#[test]
fn unknown_language_falls_back_to_md_file() {
    let mut io = FileIO::new();
    io.handle_message(write_msg("```unknownlang\nsome text\n```", "prompt"));
    assert_eq!(io.files().len(), 1);
    assert_eq!(io.files()[0], "responses/0_prompt.md");
}

#[test]
fn prose_without_fences_creates_no_files_and_no_writes() {
    let mut io = FileIO::new();
    let ops = io.handle_message(write_msg("just a plain reply\nover two lines", "prompt"));
    assert_eq!(io.files().len(), 0);
    assert!(ops.is_empty());
}

#[test]
fn two_balanced_pairs_create_two_distinct_files() {
    let mut io = FileIO::new();
    let text = "```python\na\n```\nbetween\n```rust\nb\n```\ntail";
    let ops = io.handle_message(write_msg(text, "p"));
    assert_eq!(io.files().len(), 2);
    assert_eq!(io.files()[0], "responses/0_p.py");
    assert_eq!(io.files()[1], "responses/1_p.rs");
    let appends: Vec<(String, String)> = ops
        .iter()
        .map(|op| match op {
            FileOp::Append { path, text } => (path.clone(), text.clone()),
            FileOp::Delete { .. } => panic!("expected appends only"),
        })
        .collect();
    assert_eq!(appends, vec![
        ("responses/0_p.py".to_string(), "a\n".to_string()),
        ("responses/1_p.rs".to_string(), "b\n".to_string()),
    ]);
}

#[test]
fn block_content_concatenates_across_fragments() {
    let mut io = FileIO::new();
    let mut contents = String::new();
    for msg in ["```python\nfirst\n", "second\n", "```\n"] {
        for op in io.handle_message(write_msg(msg, "p")) {
            match op {
                FileOp::Append { path, text } => {
                    assert_eq!(path, "responses/0_p.py");
                    contents.push_str(&text);
                }
                FileOp::Delete { .. } => panic!("expected appends only"),
            }
        }
    }
    assert_eq!(contents, "first\nsecond\n");
    assert_eq!(io.files().len(), 1);
}

#[test]
fn third_marker_opens_a_new_block() {
    let mut io = FileIO::new();
    // the first marker opens, the second closes; a third opens again
    let ops = io.handle_message(write_msg("```\nx\n```\ny\n```z", "p"));
    assert_eq!(io.files().len(), 2);
    assert_eq!(ops.len(), 1);
    match &ops[0] {
        FileOp::Append { text, .. } => assert_eq!(text, "x\n"),
        FileOp::Delete { .. } => panic!("expected an append"),
    }
}

#[test]
fn marker_lines_are_consumed_not_written() {
    let mut io = FileIO::new();
    let ops = io.handle_message(write_msg("```go\n```", "p"));
    assert_eq!(io.files().len(), 1);
    assert_eq!(io.files()[0], "responses/0_p.go");
    assert!(ops.is_empty());
}

#[test]
fn remove_all_deletes_in_reverse_creation_order() {
    let mut io = FileIO::new();
    io.handle_message(write_msg("```python\na\n```\n```rust\nb\n```", "p"));
    let ops = io.handle_message(remove_msg());
    let deleted: Vec<String> = ops
        .iter()
        .map(|op| match op {
            FileOp::Delete { path } => path.clone(),
            FileOp::Append { .. } => panic!("expected deletes only"),
        })
        .collect();
    assert_eq!(deleted, vec![
        "responses/1_p.rs".to_string(),
        "responses/0_p.py".to_string(),
    ]);
    assert_eq!(io.files().len(), 0);
}

#[test]
fn remove_all_twice_deletes_nothing_the_second_time() {
    let mut io = FileIO::new();
    io.handle_message(write_msg("```python\na\n```", "p"));
    let first = io.handle_message(remove_msg());
    assert_eq!(first.len(), 1);
    let second = io.handle_message(remove_msg());
    assert!(second.is_empty());
    assert_eq!(io.files().len(), 0);
}

#[test]
fn block_counter_keeps_later_prompts_collision_free() {
    let mut io = FileIO::new();
    io.handle_message(write_msg("```python\na\n```", "same"));
    io.handle_message(write_msg("```python\nb\n```", "same"));
    assert_eq!(io.files().len(), 2);
    assert_eq!(io.files()[0], "responses/0_same.py");
    assert_eq!(io.files()[1], "responses/1_same.py");
    assert_eq!(io.blocks_opened(), 2);
}

#[test]
fn check_for_code_reports_markers_and_toggles() {
    let mut io = FileIO::new();
    assert!(!io.check_for_code("no marker here"));
    assert!(io.check_for_code("```python"));
    assert!(!io.check_for_code("inside the block"));
    assert!(io.check_for_code("``` trailing"));
    assert_eq!(io.files().len(), 1);
}

#[test]
fn crlf_fence_line_still_resolves_its_tag() {
    let mut io = FileIO::new();
    let ops = io.handle_message(write_msg("```python\r\ncode\n```", "p"));
    assert_eq!(io.files().len(), 1);
    assert_eq!(io.files()[0], "responses/0_p.py");
    assert_eq!(ops.len(), 1);
    match &ops[0] {
        FileOp::Append { text, .. } => assert_eq!(text, "code\n"),
        FileOp::Delete { .. } => panic!("expected an append"),
    }
}
