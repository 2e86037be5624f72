use genchat::genai::Candidate;
use genchat::genai::Content;
use genchat::genai::Data;
use genchat::genai::Genai;
use genchat::genai::Part;
use genchat::genai::derive_file_name;
use genchat::genai::process_event;
use genchat::genai::process_events;

fn frame_with(text: &str) -> Data {
    Data {
        candidates: vec![Candidate {
            content: Some(Content {
                role: "model".to_string(),
                parts: vec![Part { text: text.to_string() }],
            }),
            finish_reason: "STOP".to_string(),
        }],
    }
}

fn frame_blocked() -> Data {
    Data {
        candidates: vec![Candidate { content: None, finish_reason: "SAFETY".to_string() }],
    }
}

fn frame_empty() -> Data {
    Data { candidates: vec![] }
}

#[test]
fn fragments_accumulate_one_per_frame_with_content() {
    let events = vec![
        frame_with("Hel"),
        frame_blocked(),
        frame_with("lo "),
        frame_empty(),
        frame_with("world"),
    ];
    let mut parts: Vec<Part> = Vec::new();
    let frags = process_events(&mut parts, &events);
    assert_eq!(parts.len(), 3);
    assert_eq!(frags, vec!["Hel".to_string(), "lo ".to_string(), "world".to_string()]);
    let reply: String = parts.iter().map(|p| p.text.clone()).collect();
    assert_eq!(reply, "Hello world");
}

#[test]
fn blocked_frame_adds_nothing() {
    let mut parts: Vec<Part> = Vec::new();
    assert!(process_event(&mut parts, &frame_blocked()).is_none());
    assert!(process_event(&mut parts, &frame_empty()).is_none());
    assert!(parts.is_empty());
}

#[test]
fn content_frame_returns_its_fragment() {
    let mut parts: Vec<Part> = Vec::new();
    let frag = process_event(&mut parts, &frame_with("text")).unwrap();
    assert_eq!(frag, "text");
    assert_eq!(parts.len(), 1);
    assert_eq!(parts[0].text, "text");
}

#[test]
fn prose_reply_without_fences_is_returned_in_full() {
    let events = vec![frame_with("plain prose, "), frame_with("no code at all")];
    let mut parts: Vec<Part> = Vec::new();
    process_events(&mut parts, &events);
    let reply: String = parts.iter().map(|p| p.text.clone()).collect();
    assert_eq!(reply, "plain prose, no code at all");
}

#[test]
fn file_name_strips_whitespace_and_truncates() {
    assert_eq!(derive_file_name("how do I set a user env var"), "howdoIsetauserenvvar");
    assert_eq!(derive_file_name("hi"), "hi");
    assert_eq!(derive_file_name("  \t\n "), "");
    assert_eq!(derive_file_name("a\u{00A0}b\u{2003}c"), "abc");
    assert_eq!(derive_file_name("abcdefghijklmnopqrstuvwxyz"), "abcdefghijklmnopqrst");
}

#[test]
fn history_grows_one_turn_per_side() {
    let mut g = Genai::new("key".to_string(), "gemini-pro");
    g.push_user_turn("first question".to_string());
    g.push_model_turn(vec![Part { text: "first answer".to_string() }]);
    g.push_user_turn("second question".to_string());
    let h = g.history();
    assert_eq!(h.len(), 3);
    assert_eq!(h[0].role, "user");
    assert_eq!(h[0].parts[0].text, "first question");
    assert_eq!(h[1].role, "model");
    assert_eq!(h[1].parts[0].text, "first answer");
    assert_eq!(h[2].role, "user");
    g.reset_session();
    assert!(g.history().is_empty());
}

#[test]
fn urls_embed_endpoint_model_and_key() {
    let g = Genai::new("KEY".to_string(), "gemini-pro");
    assert_eq!(
        g.stream_url(),
        "https://generativelanguage.googleapis.com/v1beta/models/gemini-pro:streamGenerateContent?alt=sse&key=KEY"
    );
    assert_eq!(
        g.query_url(),
        "https://generativelanguage.googleapis.com/v1beta/models/gemini-pro:generateContent?key=KEY"
    );
    assert_eq!(
        g.models_url(),
        "https://generativelanguage.googleapis.com/v1beta/models?key=KEY"
    );
}
