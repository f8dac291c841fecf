use openjev::engine::{EngineConfig, EngineError};
use openjev::laya::{
    check_option_count, check_slide_bias_len, pad_seq, temperature_text, touch_graph,
};
use openjev::models::{find, registry, LayaError, ModelsError};
use openjev::pipeline::PipelineError;
use openjev::server::{check_request, pick_worker, validate_model, ApiError, BenchRequest, MethodSet};
use openjev::timing::{epoch_micros, PerfSpan, Timings};

#[test]
fn registry_lookup() {
    let e = find("qwen3-4b").ok().unwrap();
    assert_eq!(e.filename, "Qwen3-4B-Q5_K_M.gguf");
    assert!(e.suppress_think);
    assert_eq!(find("qwen3-0.6b").ok().unwrap().think_budget, Some(150));
    match find("gpt-9") {
        Err(ModelsError::UnknownModel(id)) => assert_eq!(id, "gpt-9"),
        _ => panic!("expected UnknownModel"),
    }
    assert_eq!(registry().len(), 4);
}

#[test]
fn error_messages() {
    assert_eq!(ModelsError::UnknownModel("x".into()).message(), "unknown model id: x");
    assert_eq!(ModelsError::ClientInit("e".into()).message(), "hf-hub client init failed: e");
    assert_eq!(ModelsError::Download("e".into()).message(), "model download failed: e");
    assert_eq!(LayaError::Unreachable("e".into()).message(), "laya serve unreachable: e");
    assert_eq!(
        LayaError::BadResponse("e".into()).message(),
        "laya serve returned an unexpected response: e"
    );
    assert_eq!(PipelineError::Engine("e".into()).message(), "engine error: e");
    assert_eq!(PipelineError::InvalidOptions("e".into()).message(), "invalid options: e");
    assert_eq!(PipelineError::Laya("e".into()).message(), "laya error: e");
    assert_eq!(EngineError::Decode("e".into()).message(), "decode failed: e");
    assert_eq!(EngineError::BackendInit("e".into()).message(), "llama backend init failed: e");
    assert_eq!(EngineError::ModelLoad("e".into()).message(), "model load failed: e");
    assert_eq!(EngineError::ContextInit("e".into()).message(), "context init failed: e");
    assert_eq!(EngineError::Tokenize("e".into()).message(), "tokenize failed: e");
    assert_eq!(EngineError::ChatTemplate("e".into()).message(), "chat template failed: e");
    assert_eq!(EngineError::BatchAdd("e".into()).message(), "batch add failed: e");
}

#[test]
fn api_errors_answer_with_status() {
    let (s, m) = ApiError::UnknownModel("laya".into()).status_and_message();
    assert_eq!(s, 400);
    assert!(m.starts_with("unknown model 'laya' \u{2014} valid models: qwen3-0.6b, qwen3-4b, minicpm5-2b."));
    assert_eq!(ApiError::InvalidOptions("bad".into()).status_and_message(), (400, "bad".to_string()));
    assert_eq!(ApiError::Engine("e".into()).status_and_message().0, 500);
    assert_eq!(ApiError::Internal("i".into()).status_and_message().0, 500);
    match ApiError::from_models_error(ModelsError::Download("net".into())) {
        ApiError::Internal(m) => assert_eq!(m, "model download failed: net"),
        _ => panic!(),
    }
    match ApiError::from_pipeline_error(PipelineError::Laya("down".into())) {
        ApiError::Internal(m) => assert_eq!(m, "down"),
        _ => panic!(),
    }
    match ApiError::from_engine_error(EngineError::Tokenize("t".into())) {
        ApiError::Engine(m) => assert_eq!(m, "tokenize failed: t"),
        _ => panic!(),
    }
}

#[test]
fn only_llms_are_served() {
    assert!(validate_model("qwen3-0.6b").is_ok());
    assert!(validate_model("minicpm5-2b").is_ok());
    match validate_model("laya") {
        Err(ApiError::UnknownModel(m)) => assert_eq!(m, "laya"),
        _ => panic!(),
    }
}

fn req(methods: Option<Vec<&str>>, skip_laya: bool, options: Vec<&str>) -> BenchRequest {
    BenchRequest {
        model: "qwen3-0.6b".into(),
        prompt: "p".into(),
        options: options.into_iter().map(String::from).collect(),
        skip_laya,
        methods: methods.map(|v| v.into_iter().map(String::from).collect()),
    }
}

#[test]
fn method_selection_resolves() {
    let all = MethodSet { readout: true, generate: true, laya: true };
    assert_eq!(check_request(&req(None, false, vec!["A"])).ok(), Some(all));
    assert_eq!(
        check_request(&req(None, true, vec!["A"])).ok(),
        Some(MethodSet { readout: true, generate: true, laya: false })
    );
    assert_eq!(
        check_request(&req(Some(vec!["laya"]), false, vec!["A"])).ok(),
        Some(MethodSet { readout: false, generate: false, laya: true })
    );
    match check_request(&req(Some(vec!["laya"]), true, vec!["A"])) {
        Err(ApiError::InvalidOptions(m)) => {
            assert_eq!(m, "methods, if provided, must name at least one of: readout, generate, laya")
        }
        _ => panic!("an all-excluded selection must be refused"),
    }
    assert_eq!(
        check_request(&req(Some(vec!["laya", "readout"]), true, vec!["A"])).ok(),
        Some(MethodSet { readout: true, generate: false, laya: false })
    );
    match check_request(&req(Some(vec!["readout", "bogus"]), false, vec!["A"])) {
        Err(ApiError::InvalidOptions(m)) => {
            assert_eq!(m, "unknown methods entry 'bogus' \u{2014} valid values: readout, generate, laya")
        }
        _ => panic!(),
    }
    match check_request(&req(Some(vec![]), false, vec!["A"])) {
        Err(ApiError::InvalidOptions(m)) => {
            assert_eq!(m, "methods, if provided, must name at least one of: readout, generate, laya")
        }
        _ => panic!(),
    }
    match check_request(&req(None, false, vec![])) {
        Err(ApiError::InvalidOptions(m)) => {
            assert_eq!(m, "options must list at least one option, e.g. [\"A\",\"B\"]")
        }
        _ => panic!(),
    }
}

#[test]
fn routing_prefers_idle_then_model_affinity() {
    assert_eq!(pick_worker(&[(1, true), (0, false), (0, true)]), 2);
    assert_eq!(pick_worker(&[(0, false), (0, false)]), 0);
    assert_eq!(pick_worker(&[(2, true), (1, false)]), 1);
    assert_eq!(pick_worker(&[]), 0);
    assert_eq!(pick_worker(&[(usize::MAX, false), (usize::MAX, true)]), 1);
}

#[test]
fn padding() {
    assert_eq!(pad_seq(16, 28), Some(32));
    assert_eq!(pad_seq(16, 0), Some(16));
    assert_eq!(pad_seq(16, 512), Some(512));
    assert_eq!(pad_seq(16, 513), None);
    assert_eq!(pad_seq(0, 28), Some(64));
    assert_eq!(pad_seq(1, 200), Some(256));
    assert_eq!(pad_seq(0, 513), None);
}

#[test]
fn graph_cache_evicts_least_recently_used() {
    let mut lru = vec![1, 2, 3, 4, 5, 6];
    assert_eq!(touch_graph(&mut lru, 7, false), vec![1]);
    assert_eq!(lru, vec![2, 3, 4, 5, 6, 7]);
    assert_eq!(touch_graph(&mut lru, 3, true), Vec::<i64>::new());
    assert_eq!(lru, vec![2, 4, 5, 6, 7, 3]);
    let mut small = vec![9];
    assert_eq!(touch_graph(&mut small, 8, false), Vec::<i64>::new());
    assert_eq!(small, vec![9, 8]);
}

#[test]
fn temperature_lookup() {
    let t = "{\"choice:2\": 0.5, \"choice:11+\": 0.100583, \"noul:2\":1.9}";
    assert_eq!(temperature_text(t, "choice", 2).as_deref(), Some("0.5"));
    assert_eq!(temperature_text(t, "choice", 12).as_deref(), Some("0.100583"));
    assert_eq!(temperature_text(t, "noul", 1).as_deref(), Some("1.9"));
    assert_eq!(temperature_text(t, "score", 2), None);
    assert_eq!(temperature_text("\"choice:3-5\": 2", "choice", 4), None);
}

#[test]
fn scoring_preconditions() {
    assert!(check_slide_bias_len(513 * 513).is_ok());
    assert_eq!(check_slide_bias_len(4).err().unwrap(), "slide_bias has 4 elements, expected 263169");
    assert_eq!(check_option_count(0, 16).err().unwrap(), "no option markers survived truncation");
    assert!(check_option_count(16, 16).is_ok());
    assert_eq!(
        check_option_count(17, 16).err().unwrap(),
        "question has 17 options but this model supports at most 16 (laya.max_opts); refusing to score rather than silently dropping options"
    );
}

#[test]
fn defaults() {
    let t = Timings::default();
    assert_eq!(t.model_load_ms + t.warmup_ms + t.tokenize_ms + t.constrained_readout_ms, 0);
    assert_eq!(t.generation_ms + t.laya_model_load_ms + t.laya_inference_ms, 0);
    let c = EngineConfig::default();
    assert_eq!((c.n_threads, c.n_ctx, c.n_batch, c.n_gpu_layers), (28, 4096, 512, 0));
}

#[test]
fn perf_span_records_only_when_enabled() {
    let mut off = PerfSpan::start("x", false);
    off.set("k", "v".to_string());
    assert!(off.finish().is_none());
    let mut on = PerfSpan::start("y", true);
    on.set("k", "v".to_string());
    on.set("j", "1".to_string());
    on.set("k", "w".to_string());
    let f = on.finish().unwrap();
    assert_eq!(f.name, "y");
    assert_eq!(f.metadata, vec![("k", "w".to_string()), ("j", "1".to_string())]);
    assert!(on.finish().is_none());
}

#[test]
fn perf_span_set_chains_and_keeps_its_start() {
    let mut s = PerfSpan::start("z", true);
    s.set("a", "1".to_string()).set("b", "2".to_string()).set("a", "3".to_string());
    let f = s.finish().unwrap();
    assert_eq!(f.metadata, vec![("a", "3".to_string()), ("b", "2".to_string())]);
    assert!(f.start.elapsed().as_secs() < 60);
}

#[test]
fn epoch_micros_matches_duration() {
    let d = std::time::Duration::new(1_700_000_123, 456_789_999);
    assert_eq!(epoch_micros(Some((d.as_secs(), d.subsec_nanos()))), d.as_micros());
    assert_eq!(epoch_micros(None), 0);
    assert_eq!(epoch_micros(Some((u64::MAX, 999_999_999))), std::time::Duration::new(u64::MAX, 999_999_999).as_micros());
}
