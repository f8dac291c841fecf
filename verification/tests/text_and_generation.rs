use openjev::generate::{
    generation_prompt, generation_request, parse_and_validate, readout_instruction, strip_think,
    with_readout_cue,
};
use openjev::text::{is_ws, trim_chars};

#[test]
fn white_space_matches_std_for_every_char() {
    for u in 0u32..=0x10FFFF {
        if let Some(c) = char::from_u32(u) {
            assert_eq!(is_ws(c), c.is_whitespace(), "code point {u:#x}");
        }
    }
}

#[test]
fn trim_matches_std_trim() {
    for s in ["  a b  ", "\u{3000}x\u{2028}", "", "   ", "\t\nabc\r\n", "no-trim"] {
        let v: Vec<char> = s.chars().collect();
        let t: String = trim_chars(&v).into_iter().collect();
        assert_eq!(t, s.trim());
    }
}

#[test]
fn strip_think_without_tag_is_unchanged() {
    assert_eq!(strip_think("  plain answer  "), "  plain answer  ");
    assert_eq!(strip_think(""), "");
}

#[test]
fn strip_think_removes_complete_blocks() {
    assert_eq!(strip_think("<think>reasoning</think>{\"answer\": \"A\"}"), "{\"answer\": \"A\"}");
    assert_eq!(strip_think("a<think>x</think> b <think>y</think> c "), "a b  c");
}

#[test]
fn strip_think_drops_unterminated_block() {
    assert_eq!(strip_think("  answer <think> never closed"), "answer");
    assert_eq!(strip_think("<think>only reasoning"), "");
}

#[test]
fn parse_and_validate_accepts_a_listed_answer() {
    let opts = vec!["A".to_string(), "B".to_string()];
    let r = parse_and_validate("Sure! ```json\n{\"answer\": \" B \"}\n```", &opts);
    assert_eq!(r.as_deref(), Some("{\"answer\": \" B \"}"));
}

#[test]
fn parse_and_validate_rejects_bad_shapes() {
    let opts = vec!["A".to_string(), "B".to_string()];
    assert_eq!(parse_and_validate("no json here", &opts), None);
    assert_eq!(parse_and_validate("} backwards {", &opts), None);
    assert_eq!(parse_and_validate("{\"answer\": \"C\"}", &opts), None);
    assert_eq!(parse_and_validate("{\"answer\": 3}", &opts), None);
    assert_eq!(parse_and_validate("{\"choice\": \"A\"}", &opts), None);
    assert_eq!(parse_and_validate("{not json}", &opts), None);
    assert_eq!(parse_and_validate("[{\"answer\": \"A\"}]", &opts), Some("{\"answer\": \"A\"}".to_string()));
}

#[test]
fn prompts_have_the_documented_shape() {
    let opts = vec!["A".to_string(), "B".to_string()];
    assert_eq!(
        readout_instruction("Q?", &opts),
        "Q?\nOptions: A, B\nAnswer with only the option letter."
    );
    assert_eq!(
        generation_request("Q?", &opts),
        "Q?\nOptions: A, B\nRespond with ONLY a JSON object of the exact form {\"answer\": \"<one of the options above>\"}."
    );
    assert_eq!(with_readout_cue("T"), "TAnswer: ");
    assert_eq!(generation_prompt("T", true), "T<think>\n\n</think>\n\n");
    assert_eq!(generation_prompt("T", false), "T");
}

#[test]
fn parse_and_validate_takes_the_first_balanced_object() {
    let opts = vec!["A".to_string(), "B".to_string()];
    assert_eq!(
        parse_and_validate("{\"answer\": \"A\"} and {\"note\": 1}", &opts).as_deref(),
        Some("{\"answer\": \"A\"}")
    );
    assert_eq!(
        parse_and_validate("x {\"answer\": \"B\", \"why\": {\"k\": 1}} y }", &opts).as_deref(),
        Some("{\"answer\": \"B\", \"why\": {\"k\": 1}}")
    );
    assert_eq!(parse_and_validate("{\"answer\": \"A\"", &opts), None);
}

#[test]
fn parse_and_validate_ignores_braces_inside_strings() {
    let opts = vec!["a}b".to_string(), "B".to_string()];
    assert_eq!(
        parse_and_validate("{\"answer\": \"a}b\"} trailing", &opts).as_deref(),
        Some("{\"answer\": \"a}b\"}")
    );
    let opts = vec!["B".to_string()];
    assert_eq!(
        parse_and_validate("x {\"why\": \"a \\\" } {\", \"answer\": \"B\"} y", &opts).as_deref(),
        Some("{\"why\": \"a \\\" } {\", \"answer\": \"B\"}")
    );
}
