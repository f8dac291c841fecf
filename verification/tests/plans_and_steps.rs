use openjev::generate::{
    answer_among_options, generation_step, GenerationState, strip_think, think_block_open, think_close_injection, GenerationStep,
    MAX_TOKENS,
};
use openjev::laya::{check_logit_slots, marker_slots, padded_input_ids};
use openjev::models::{laya_choice, LayaError};
use openjev::pipeline::{laya_outcome, option_label_ids, PipelineError};
use openjev::server::{bench_plan, BenchStep, MethodSet};

fn opts(v: &[&str]) -> Vec<String> {
    v.iter().map(|s| s.to_string()).collect()
}

#[test]
fn generation_finishes_at_limit_or_end_token() {
    assert_eq!(generation_step(MAX_TOKENS, false, false, None, 3, false, "x"), GenerationStep::Finish);
    assert_eq!(generation_step(0, true, false, Some(0), 0, false, "<think>"), GenerationStep::Finish);
    assert_eq!(generation_step(MAX_TOKENS - 1, false, true, None, 0, false, ""), GenerationStep::Emit);
}

#[test]
fn generation_closes_over_budget_reasoning_once() {
    let text = "<think>let me see";
    assert_eq!(generation_step(10, false, false, Some(5), 5, false, text), GenerationStep::CloseThink);
    // before the budget is spent
    assert_eq!(generation_step(10, false, false, Some(5), 4, false, text), GenerationStep::Emit);
    // already closed once
    assert_eq!(generation_step(10, false, false, Some(5), 9, true, text), GenerationStep::Emit);
    // suppressed reasoning never gets a forced close
    assert_eq!(generation_step(10, false, true, Some(5), 9, false, text), GenerationStep::Emit);
    // unbounded budget
    assert_eq!(generation_step(10, false, false, None, 500, false, text), GenerationStep::Emit);
    // the block is already closed
    let closed = "<think>a</think> {";
    assert_eq!(generation_step(10, false, false, Some(5), 9, false, closed), GenerationStep::Emit);
}

#[test]
fn forced_close_ends_the_reasoning_block() {
    assert_eq!(think_close_injection(), "</think>\n\n");
    for s in ["<think>abc", "", "x<think>a</think>y<think>", "<thi", "plain"] {
        let closed = format!("{s}{}", think_close_injection());
        assert!(!think_block_open(&closed), "{s:?}");
    }
    let text = format!("<think>long reasoning{}{{\"answer\": \"A\"}}", think_close_injection());
    assert_eq!(strip_think(&text), "{\"answer\": \"A\"}");
}

#[test]
fn think_block_open_cases() {
    assert!(think_block_open("<think>"));
    assert!(think_block_open("a<think>b</think>c<think>d"));
    assert!(!think_block_open("a<think>b</think>c"));
    assert!(!think_block_open("no tags"));
}

fn all(readout: bool, generate: bool, laya: bool) -> MethodSet {
    MethodSet { readout, generate, laya }
}

#[test]
fn bench_plan_default_request_on_cold_worker() {
    assert_eq!(
        bench_plan(all(true, true, true), false),
        vec![BenchStep::StartLaya, BenchStep::LoadModel, BenchStep::ResetContext, BenchStep::Tokenize, BenchStep::Readout, BenchStep::ResetContext, BenchStep::Generate, BenchStep::JoinLaya]
    );
}

#[test]
fn bench_plan_laya_only_never_touches_the_engine() {
    assert_eq!(bench_plan(all(false, false, true), false), vec![BenchStep::StartLaya, BenchStep::JoinLaya]);
    assert_eq!(bench_plan(all(false, false, true), true), vec![BenchStep::StartLaya, BenchStep::JoinLaya]);
}

#[test]
fn bench_plan_cached_model_is_not_reloaded() {
    assert_eq!(bench_plan(all(true, false, false), true), vec![BenchStep::ResetContext, BenchStep::Tokenize, BenchStep::Readout]);
    assert_eq!(
        bench_plan(all(false, true, false), true),
        vec![BenchStep::ResetContext, BenchStep::Tokenize, BenchStep::ResetContext, BenchStep::Generate]
    );
}

#[test]
fn label_ids_take_first_token() {
    let ids = option_label_ids(&opts(&["A", "B"]), &[vec![32, 7], vec![33]]).ok().unwrap();
    assert_eq!(ids, vec![32usize, 33]);
}

#[test]
fn label_ids_errors() {
    match option_label_ids(&[], &[]) {
        Err(PipelineError::InvalidOptions(m)) => assert_eq!(m, "no options given"),
        _ => panic!("expected InvalidOptions"),
    }
    match option_label_ids(&opts(&["A", "", "C"]), &[vec![1], vec![], vec![]]) {
        Err(PipelineError::InvalidOptions(m)) => assert_eq!(m, "option '' tokenized to nothing"),
        _ => panic!("expected InvalidOptions"),
    }
}

#[test]
fn laya_reply_acceptance() {
    assert_eq!(laya_choice(true, "200 OK", true, Some("B".to_string())).ok().unwrap(), "B");
    match laya_choice(false, "503 Service Unavailable", true, Some("B".to_string())) {
        Err(LayaError::BadResponse(m)) => assert_eq!(m, "HTTP 503 Service Unavailable"),
        _ => panic!("expected BadResponse"),
    }
    match laya_choice(true, "200 OK", false, None) {
        Err(LayaError::BadResponse(m)) => {
            assert_eq!(m, "missing 'answers.answer' in laya response")
        }
        _ => panic!("expected BadResponse"),
    }
    match laya_choice(true, "200 OK", true, None) {
        Err(LayaError::BadResponse(m)) => assert_eq!(m, "missing 'answers.answer.choice'"),
        _ => panic!("expected BadResponse"),
    }
}

#[test]
fn input_ids_are_padded_to_the_sequence() {
    assert_eq!(padded_input_ids(&[5, 6, 7], 6, 0), vec![5, 6, 7, 0, 0, 0]);
    assert_eq!(padded_input_ids(&[5, 6, 7], 2, 0), vec![5, 6]);
    assert_eq!(marker_slots(&[3, 9], 4), vec![3, 9, 0, 0]);
    assert!(marker_slots(&[3, 9], 0).is_empty());
}

#[test]
fn logit_slot_check() {
    assert!(check_logit_slots(16, 16).is_ok());
    assert_eq!(
        check_logit_slots(17, 16).err().unwrap(),
        "17 options exceeds the 16-slot logits tensor"
    );
}

#[test]
fn answer_is_matched_after_trimming() {
    let options = opts(&[" A ", "B"]);
    assert!(answer_among_options("A", &options));
    assert!(answer_among_options("  B\n", &options));
    assert!(!answer_among_options("C", &options));
    assert!(!answer_among_options("a", &options));
    assert!(!answer_among_options("A", &[]));
}

#[test]
fn generation_state_advances_per_step() {
    let mut st = GenerationState::new();
    st.advance(GenerationStep::Emit, "<think>hm");
    st.advance(GenerationStep::Emit, "m");
    assert_eq!((st.steps, st.generated, st.closed_by_force), (2, 2, false));
    assert!(think_block_open(&st.text));
    st.advance(GenerationStep::CloseThink, "ignored");
    assert_eq!((st.steps, st.generated, st.closed_by_force), (3, 2, true));
    assert_eq!(st.text, "<think>hmm</think>\n\n");
    assert!(!think_block_open(&st.text));
    st.advance(GenerationStep::Finish, "x");
    assert_eq!((st.steps, st.generated), (3, 2));
    assert_eq!(strip_think(&st.text), "");
}

#[test]
fn laya_failure_leaves_the_result_missing() {
    assert_eq!(laya_outcome::<u8>(Ok(3)), Some(3));
    assert_eq!(laya_outcome::<u8>(Err(PipelineError::Laya("down".to_string()))), None);
}
