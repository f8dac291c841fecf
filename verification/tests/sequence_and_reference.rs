use openjev::sequence::{render_options, QType, Question};
use openjev::tokenizer::pretokenize;

#[test]
fn gpt2_pretokenizer_splits_like_the_reference_regex() {
    assert_eq!(pretokenize("choice question: Pick the correct option."),
        vec!["choice", " question", ":", " Pick", " the", " correct", " option", "."]);
    assert_eq!(pretokenize(" A"), vec![" A"]);
    assert_eq!(pretokenize("The capital of France is: A) London B) Paris"),
        vec!["The", " capital", " of", " France", " is", ":", " A", ")", " London", " B", ")", " Paris"]);
    // contractions, digit runs, and the `\s+(?!\S)` trailing-whitespace rule
    assert_eq!(pretokenize("don't 42  x"), vec!["don", "'t", " 42", " ", " x"]);
    assert_eq!(pretokenize("a \n"), vec!["a", " \n"]);
}

#[test]
fn render_options_matches_common_py() {
    let choice = Question {
        qtype: QType::Choice,
        instructions: String::new(),
        criteria: vec![("A".into(), None), ("B".into(), Some("the other one".into()))],
    };
    assert_eq!(render_options(&choice), vec!["A", "B: the other one"]);

    let noul = Question { qtype: QType::Noul, instructions: String::new(), criteria: vec![] };
    assert_eq!(render_options(&noul),
        vec!["false: no, the statement does not hold", "true: yes, the statement holds"]);

    let score = Question {
        qtype: QType::Score,
        instructions: String::new(),
        criteria: vec![("0".into(), Some("bad".into())), ("1".into(), Some("good".into()))],
    };
    assert_eq!(render_options(&score), vec!["level 0: bad", "level 1: good"]);
}
