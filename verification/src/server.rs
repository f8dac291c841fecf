//! The decisions of the benchmark HTTP server: which models it serves, how a request's
//! method selection resolves, what an error answers, and which engine worker takes a job.
use vstd::prelude::*;
use crate::engine::{engine_error_message, prefixed, EngineError};
use crate::models::{models_error_message, ModelsError};
use crate::pipeline::PipelineError;
use crate::text::{chars_of, extend_chars, string_of, vec_chars_eq, views_of};

verus! {

/// The model ids the server runs through the inference engine: the registry's LLMs, not
/// `laya`, which is always run as the third comparison method instead.
pub open spec fn server_models() -> Seq<Seq<char>> {
    seq!["qwen3-0.6b"@, "qwen3-4b"@, "minicpm5-2b"@]
}

/// Mirrors the command line's semantics: a model, a prompt, a flat list of option labels,
/// whether to skip Laya, and an optional subset of `readout`/`generate`/`laya` to run.
pub struct BenchRequest {
    pub model: String,
    pub prompt: String,
    pub options: Vec<String>,
    pub skip_laya: bool,
    pub methods: Option<Vec<String>>,
}

/// Which of the three comparison methods a request runs.
#[derive(Clone, Copy, Debug, PartialEq, Eq, Structural)]
pub struct MethodSet {
    pub readout: bool,
    pub generate: bool,
    pub laya: bool,
}

/// Errors answered to HTTP clients.
#[derive(Debug)]
pub enum ApiError {
    UnknownModel(String),
    InvalidOptions(String),
    Engine(String),
    Internal(String),
}

/// The message and the status code an error is answered with.
pub open spec fn api_error_answer(e: ApiError) -> (u16, Seq<char>) {
    match e {
        ApiError::UnknownModel(m) => (
            400,
            "unknown model '"@ + m@ + "' \u{2014} valid models: qwen3-0.6b, qwen3-4b, minicpm5-2b. Laya is always included automatically in the 'laya' field of the response unless skip_laya is set."@,
        ),
        ApiError::InvalidOptions(m) => (400, m@),
        ApiError::Engine(m) => (500, m@),
        ApiError::Internal(m) => (500, m@),
    }
}

impl ApiError {
    /// The HTTP status code and the message the error is answered with: 400 for an unknown
    /// model or invalid options, 500 for engine and internal failures.
    pub fn status_and_message(&self) -> (r: (u16, String))
        ensures
            r.0 == api_error_answer(*self).0,
            r.1@ == api_error_answer(*self).1,
    {
        match self {
            ApiError::UnknownModel(m) => {
                let mut v = chars_of("unknown model '");
                extend_chars(&mut v, &chars_of(m.as_str()));
                extend_chars(
                    &mut v,
                    &chars_of(
                        "' \u{2014} valid models: qwen3-0.6b, qwen3-4b, minicpm5-2b. Laya is always included automatically in the 'laya' field of the response unless skip_laya is set.",
                    ),
                );
                (400, string_of(&v))
            },
            ApiError::InvalidOptions(m) => (400, m.clone()),
            ApiError::Engine(m) => (500, m.clone()),
            ApiError::Internal(m) => (500, m.clone()),
        }
    }

    /// An unknown model id stays `UnknownModel`; any other models error is `Internal`.
    pub fn from_models_error(e: ModelsError) -> (r: ApiError)
        ensures
            match e {
                ModelsError::UnknownModel(id) => r == ApiError::UnknownModel(id),
                _ => r matches ApiError::Internal(m) && m@ == models_error_message(e),
            },
    {
        match e {
            ModelsError::UnknownModel(id) => ApiError::UnknownModel(id),
            other => ApiError::Internal(other.message()),
        }
    }

    /// An engine error is `Engine`, with the engine error's text.
    pub fn from_engine_error(e: EngineError) -> (r: ApiError)
        ensures
            r matches ApiError::Engine(m) && m@ == engine_error_message(e),
    {
        ApiError::Engine(e.message())
    }

    /// Invalid options stay `InvalidOptions`, an engine failure stays `Engine`, and a Laya
    /// failure (normally degraded before it gets here) is `Internal`.
    pub fn from_pipeline_error(e: PipelineError) -> (r: ApiError)
        ensures
            match e {
                PipelineError::InvalidOptions(m) => r == ApiError::InvalidOptions(m),
                PipelineError::Engine(m) => r == ApiError::Engine(m),
                PipelineError::Laya(m) => r == ApiError::Internal(m),
            },
    {
        match e {
            PipelineError::InvalidOptions(m) => ApiError::InvalidOptions(m),
            PipelineError::Engine(m) => ApiError::Engine(m),
            PipelineError::Laya(m) => ApiError::Internal(m),
        }
    }
}

/// Accepts exactly the models the server runs; anything else, notably `laya`, is
/// `UnknownModel(model)`.
pub fn validate_model(model: &str) -> (r: Result<(), ApiError>)
    ensures
        server_models().contains(model@) ==> r is Ok,
        !server_models().contains(model@) ==> (r matches Err(ApiError::UnknownModel(m)) && m@
            == model@),
{
    let m = chars_of(model);
    let a = chars_of("qwen3-0.6b");
    let b = chars_of("qwen3-4b");
    let c = chars_of("minicpm5-2b");
    if vec_chars_eq(&m, &a) || vec_chars_eq(&m, &b) || vec_chars_eq(&m, &c) {
        assert(server_models().contains(model@)) by {
            if m@ == a@ {
                assert(server_models()[0] == model@);
            } else if m@ == b@ {
                assert(server_models()[1] == model@);
            } else {
                assert(server_models()[2] == model@);
            }
        }
        Ok(())
    } else {
        assert(!server_models().contains(model@)) by {
            if server_models().contains(model@) {
                let i = choose|i: int| 0 <= i < 3 && server_models()[i] == model@;
                assert(i == 0 || i == 1 || i == 2);
            }
        }
        Err(ApiError::UnknownModel(String::from_str(model)))
    }
}

/// Whether `m` names one of the three methods.
pub open spec fn known_method(m: Seq<char>) -> bool {
    m == "readout"@ || m == "generate"@ || m == "laya"@
}

/// The index of the first entry that names no method, or `-1`.
pub open spec fn first_unknown_method(list: Seq<Seq<char>>) -> int
    decreases list.len(),
{
    if list.len() == 0 {
        -1
    } else if !known_method(list[0]) {
        0
    } else if first_unknown_method(list.drop_first()) < 0 {
        -1
    } else {
        1 + first_unknown_method(list.drop_first())
    }
}

/// The message for an entry that names no method.
pub open spec fn unknown_method_message(m: Seq<char>) -> Seq<char> {
    "unknown methods entry '"@ + m + "' \u{2014} valid values: readout, generate, laya"@
}

/// The message for a method list that names none of the methods.
pub open spec fn empty_methods_message() -> Seq<char> {
    "methods, if provided, must name at least one of: readout, generate, laya"@
}

/// What a method selection resolves to: no list runs all three; a list runs exactly the
/// methods it names, its first unknown entry being `InvalidOptions`; `skip_laya` always
/// turns Laya off; and a list that leaves nothing to run once Laya is skipped is
/// `InvalidOptions` rather than running nothing.
pub open spec fn resolve_spec(methods: Option<Seq<Seq<char>>>, skip_laya: bool) -> Result<
    MethodSet,
    Seq<char>,
> {
    match methods {
        None => Ok(MethodSet { readout: true, generate: true, laya: !skip_laya }),
        Some(list) => if first_unknown_method(list) >= 0 {
            Err(unknown_method_message(list[first_unknown_method(list)]))
        } else if !list.contains("readout"@) && !list.contains("generate"@) && !(list.contains(
            "laya"@,
        ) && !skip_laya) {
            Err(empty_methods_message())
        } else {
            Ok(
                MethodSet {
                    readout: list.contains("readout"@),
                    generate: list.contains("generate"@),
                    laya: list.contains("laya"@) && !skip_laya,
                },
            )
        },
    }
}

/// The method list of a request as character sequences.
pub open spec fn methods_view(methods: Option<Vec<String>>) -> Option<Seq<Seq<char>>> {
    match methods {
        None => None,
        Some(v) => Some(views_of(v@)),
    }
}

/// Whether `r` is the answer `spec` describes, an error being `InvalidOptions`.
pub open spec fn resolved_as(r: Result<MethodSet, ApiError>, spec: Result<MethodSet, Seq<char>>) -> bool {
    match spec {
        Ok(s) => r == Ok::<MethodSet, ApiError>(s),
        Err(msg) => r matches Err(ApiError::InvalidOptions(m)) && m@ == msg,
    }
}

proof fn lemma_first_unknown(list: Seq<Seq<char>>, k: int)
    requires
        0 <= k <= list.len(),
        forall|i: int| 0 <= i < k ==> known_method(#[trigger] list[i]),
    ensures
        k == list.len() ==> first_unknown_method(list) == -1,
        k < list.len() && !known_method(list[k]) ==> first_unknown_method(list) == k,
    decreases k,
{
    if k > 0 {
        let t = list.drop_first();
        assert forall|i: int| 0 <= i < k - 1 implies known_method(#[trigger] t[i]) by {
            assert(t[i] == list[i + 1]);
        }
        lemma_first_unknown(t, k - 1);
    }
}

impl MethodSet {
    /// Resolves a request's method selection (see `resolve_spec`).
    pub fn resolve(methods: &Option<Vec<String>>, skip_laya: bool) -> (r: Result<Self, ApiError>)
        ensures
            resolved_as(r, resolve_spec(methods_view(*methods), skip_laya)),
    {
        let mut set = match methods {
            None => MethodSet { readout: true, generate: true, laya: true },
            Some(list) => {
                let ghost lv = views_of(list@);
                let r_name = chars_of("readout");
                let g_name = chars_of("generate");
                let l_name = chars_of("laya");
                let mut s = MethodSet { readout: false, generate: false, laya: false };
                let mut i: usize = 0;
                while i < list.len()
                    invariant
                        i <= list@.len(),
                        lv == views_of(list@),
                        methods_view(*methods) == Some(lv),
                        r_name@ == "readout"@,
                        g_name@ == "generate"@,
                        l_name@ == "laya"@,
                        forall|j: int| 0 <= j < i ==> known_method(#[trigger] lv[j]),
                        s.readout == lv.take(i as int).contains("readout"@),
                        s.generate == lv.take(i as int).contains("generate"@),
                        s.laya == lv.take(i as int).contains("laya"@),
                    decreases list@.len() - i,
                {
                    proof {
                        reveal_strlit("readout");
                        reveal_strlit("generate");
                        reveal_strlit("laya");
                    }
                    let m = chars_of(list[i].as_str());
                    assert(m@ == lv[i as int]);
                    let ghost pre = lv.take(i as int);
                    let ghost cur = lv.take(i + 1);
                    assert(cur =~= pre.push(lv[i as int]));
                    assert forall|w: Seq<char>| cur.contains(w) <==> (pre.contains(w) || w
                        == lv[i as int]) by {
                        if cur.contains(w) {
                            let j = choose|j: int| 0 <= j < cur.len() && cur[j] == w;
                            if j < i {
                                assert(pre[j] == w);
                            }
                        }
                        if pre.contains(w) {
                            let j = choose|j: int| 0 <= j < pre.len() && pre[j] == w;
                            assert(cur[j] == w);
                        }
                        if w == lv[i as int] {
                            assert(cur[i as int] == w);
                        }
                    }
                    assert("readout"@.len() == 7 && "generate"@.len() == 8 && "laya"@.len() == 4);
                    if vec_chars_eq(&m, &r_name) {
                        assert(lv[i as int] != "generate"@ && lv[i as int] != "laya"@);
                        s.readout = true;
                    } else if vec_chars_eq(&m, &g_name) {
                        assert(lv[i as int] != "readout"@ && lv[i as int] != "laya"@);
                        s.generate = true;
                    } else if vec_chars_eq(&m, &l_name) {
                        assert(lv[i as int] != "generate"@ && lv[i as int] != "readout"@);
                        s.laya = true;
                    } else {
                        proof {
                            lemma_first_unknown(lv, i as int);
                        }
                        assert(!known_method(lv[i as int]));
                        assert(first_unknown_method(lv) == i);
                        let mut msg = chars_of("unknown methods entry '");
                        extend_chars(&mut msg, &m);
                        extend_chars(
                            &mut msg,
                            &chars_of("' \u{2014} valid values: readout, generate, laya"),
                        );
                        let e = string_of(&msg);
                        assert(e@ == unknown_method_message(lv[i as int]));
                        assert(methods_view(*methods) == Some(lv));
                        return Err(ApiError::InvalidOptions(e));
                    }
                    i = i + 1;
                }
                proof {
                    lemma_first_unknown(lv, i as int);
                    assert(lv.take(i as int) =~= lv);
                }
                if skip_laya {
                    s.laya = false;
                }
                if !s.readout && !s.generate && !s.laya {
                    return Err(
                        ApiError::InvalidOptions(
                            String::from_str(
                                "methods, if provided, must name at least one of: readout, generate, laya",
                            ),
                        ),
                    );
                }
                s
            },
        };
        if skip_laya {
            set.laya = false;
        }
        Ok(set)
    }
}

/// The message for a request without options.
pub open spec fn no_options_message() -> Seq<char> {
    "options must list at least one option, e.g. [\"A\",\"B\"]"@
}

/// The checks a benchmark request passes before any work: the model must be one the
/// server runs, the options must not be empty, and the method selection must resolve.
pub fn check_request(req: &BenchRequest) -> (r: Result<MethodSet, ApiError>)
    ensures
        !server_models().contains(req.model@) ==> (r matches Err(ApiError::UnknownModel(m)) && m@
            == req.model@),
        server_models().contains(req.model@) && req.options@.len() == 0 ==> (r matches Err(
            ApiError::InvalidOptions(m),
        ) && m@ == no_options_message()),
        server_models().contains(req.model@) && req.options@.len() > 0 ==> resolved_as(
            r,
            resolve_spec(methods_view(req.methods), req.skip_laya),
        ),
{
    match validate_model(req.model.as_str()) {
        Err(e) => return Err(e),
        Ok(()) => {},
    }
    if req.options.len() == 0 {
        return Err(
            ApiError::InvalidOptions(
                String::from_str("options must list at least one option, e.g. [\"A\",\"B\"]"),
            ),
        );
    }
    MethodSet::resolve(&req.methods, req.skip_laya)
}

/// The routing key of a worker: jobs in flight first, then `0` if it already holds the
/// request's model, else `1`.
pub open spec fn route_key(w: (usize, bool)) -> (int, int) {
    (w.0 as int, if w.1 {
        0
    } else {
        1
    })
}

/// Lexicographic order on routing keys.
pub open spec fn key_less(a: (int, int), b: (int, int)) -> bool {
    a.0 < b.0 || (a.0 == b.0 && a.1 < b.1)
}

/// Whether `r` is the first worker with the least routing key.
pub open spec fn first_least_key(workers: Seq<(usize, bool)>, r: int) -> bool {
    &&& 0 <= r < workers.len()
    &&& forall|j: int|
        0 <= j < workers.len() ==> !key_less(route_key(#[trigger] workers[j]), route_key(workers[r]))
    &&& forall|j: int| 0 <= j < r ==> key_less(route_key(workers[r]), route_key(#[trigger] workers[j]))
}

/// Picks the worker for a request, given each worker's `(jobs in flight, holds the model)`:
/// the first worker with the least key — least loaded, then already holding the model.
/// With no worker it answers 0.
pub fn pick_worker(workers: &[(usize, bool)]) -> (r: usize)
    ensures
        workers@.len() == 0 ==> r == 0,
        workers@.len() > 0 ==> first_least_key(workers@, r as int),
{
    let mut best: usize = 0;
    let mut best_load: usize = usize::MAX;
    let mut best_miss: u8 = 1;
    let mut idx: usize = 0;
    while idx < workers.len()
        invariant
            idx <= workers@.len(),
            best_miss <= 1,
            idx == 0 ==> best == 0 && best_load == usize::MAX && best_miss == 1,
            idx > 0 ==> best < idx,
            idx > 0 ==> (best_load as int, best_miss as int) == route_key(workers@[best as int])
                || (best == 0 && best_load == usize::MAX && best_miss == 1),
            forall|j: int|
                0 <= j < idx ==> !key_less(
                    route_key(#[trigger] workers@[j]),
                    (best_load as int, best_miss as int),
                ),
            forall|j: int|
                0 <= j < best ==> key_less(
                    (best_load as int, best_miss as int),
                    route_key(#[trigger] workers@[j]),
                ),
        decreases workers@.len() - idx,
    {
        let (load, has) = workers[idx];
        let miss: u8 = if has {
            0
        } else {
            1
        };
        if load < best_load || (load == best_load && miss < best_miss) {
            best = idx;
            best_load = load;
            best_miss = miss;
        }
        idx = idx + 1;
    }
    best
}

/// `skip_laya` always wins: a request that skips Laya never runs it, whatever its method
/// list names; a request without a method list runs readout and generation; and a
/// selection that resolves always runs at least one method.
pub proof fn law_skip_laya_wins(methods: Option<Seq<Seq<char>>>, skip_laya: bool)
    ensures
        resolve_spec(methods, true) matches Ok(s) ==> !s.laya,
        resolve_spec(methods, skip_laya) matches Ok(s) ==> s.readout || s.generate || s.laya,
        methods is None ==> resolve_spec(methods, false) == Ok::<MethodSet, Seq<char>>(
            MethodSet { readout: true, generate: true, laya: true },
        ),
{
}


/// One step of a benchmark run on an engine worker.
#[derive(Clone, Copy, Debug, PartialEq, Eq, Structural)]
pub enum BenchStep {
    /// Start Laya's scoring round trip on a thread of its own, so it overlaps the engine work.
    StartLaya,
    /// Download the model if needed, load it into an engine, warm it up and cache it.
    LoadModel,
    /// Clear the engine's context so no earlier decoding leaks into what follows.
    ResetContext,
    /// Tokenize the prompt (timed on its own).
    Tokenize,
    /// Run the constrained readout.
    Readout,
    /// Run the JSON generation.
    Generate,
    /// Wait for Laya's round trip to finish.
    JoinLaya,
}

/// The engine work of a benchmark run, when readout or generation runs: the model is
/// loaded unless the worker already holds it, the context is cleared and the prompt
/// tokenized, then the readout, then a cleared context and the generation, each when
/// selected.
pub open spec fn engine_steps(m: MethodSet, model_cached: bool) -> Seq<BenchStep> {
    let load = if model_cached {
        seq![]
    } else {
        seq![BenchStep::LoadModel]
    };
    let readout = if m.readout {
        seq![BenchStep::Readout]
    } else {
        seq![]
    };
    let generate = if m.generate {
        seq![BenchStep::ResetContext, BenchStep::Generate]
    } else {
        seq![]
    };
    if m.readout || m.generate {
        load + seq![BenchStep::ResetContext, BenchStep::Tokenize] + readout + generate
    } else {
        seq![]
    }
}

/// The steps of a benchmark run for the methods `m`, when the worker does or does not
/// already hold the model: Laya starts first and is joined last, the engine work lies
/// between.
pub open spec fn bench_plan_spec(m: MethodSet, model_cached: bool) -> Seq<BenchStep> {
    let start = if m.laya {
        seq![BenchStep::StartLaya]
    } else {
        seq![]
    };
    let join = if m.laya {
        seq![BenchStep::JoinLaya]
    } else {
        seq![]
    };
    start + engine_steps(m, model_cached) + join
}

/// Whether a step works on the inference engine.
pub open spec fn uses_engine(step: BenchStep) -> bool {
    match step {
        BenchStep::LoadModel | BenchStep::ResetContext | BenchStep::Tokenize
        | BenchStep::Readout | BenchStep::Generate => true,
        _ => false,
    }
}

/// The steps of a benchmark run (see `bench_plan_spec`).
pub fn bench_plan(methods: MethodSet, model_cached: bool) -> (r: Vec<BenchStep>)
    ensures
        r@ == bench_plan_spec(methods, model_cached),
{
    let mut r: Vec<BenchStep> = Vec::new();
    if methods.laya {
        r.push(BenchStep::StartLaya);
    }
    if methods.readout || methods.generate {
        if !model_cached {
            r.push(BenchStep::LoadModel);
        }
        r.push(BenchStep::ResetContext);
        r.push(BenchStep::Tokenize);
        if methods.readout {
            r.push(BenchStep::Readout);
        }
        if methods.generate {
            r.push(BenchStep::ResetContext);
            r.push(BenchStep::Generate);
        }
    }
    if methods.laya {
        r.push(BenchStep::JoinLaya);
    }
    assert(r@ =~= bench_plan_spec(methods, model_cached));
    r
}

/// Within the engine work every step uses the engine, a generation comes right after a
/// cleared context, and a readout right after a cleared context and the tokenizing.
proof fn lemma_engine_steps(m: MethodSet, model_cached: bool, j: int)
    requires
        0 <= j < engine_steps(m, model_cached).len(),
    ensures
        uses_engine(engine_steps(m, model_cached)[j]),
        engine_steps(m, model_cached)[j] == BenchStep::Generate ==> 1 <= j && engine_steps(
            m,
            model_cached,
        )[j - 1] == BenchStep::ResetContext,
        engine_steps(m, model_cached)[j] == BenchStep::Readout ==> 2 <= j && engine_steps(
            m,
            model_cached,
        )[j - 2] == BenchStep::ResetContext && engine_steps(m, model_cached)[j - 1]
            == BenchStep::Tokenize,
{
    let e = engine_steps(m, model_cached);
    let head: Seq<BenchStep> = if model_cached {
        seq![BenchStep::ResetContext, BenchStep::Tokenize]
    } else {
        seq![BenchStep::LoadModel, BenchStep::ResetContext, BenchStep::Tokenize]
    };
    let h = head.len() as int;
    if m.readout && m.generate {
        assert(e =~= head + seq![BenchStep::Readout, BenchStep::ResetContext, BenchStep::Generate]);
    } else if m.readout {
        assert(e =~= head + seq![BenchStep::Readout]);
    } else {
        assert(e =~= head + seq![BenchStep::ResetContext, BenchStep::Generate]);
    }
    if j < h {
        assert(e[j] == head[j]);
    } else {
        assert(e[h - 1] == BenchStep::Tokenize);
        assert(e[h - 2] == BenchStep::ResetContext);
    }
}

/// A run does each selected method exactly as selected, and a run that selects neither
/// readout nor generation never touches the engine: no model load, no warm-up, no
/// tokenizing, no decoding.
pub proof fn law_bench_runs_what_was_selected(m: MethodSet, model_cached: bool)
    ensures
        bench_plan_spec(m, model_cached).contains(BenchStep::Readout) <==> m.readout,
        bench_plan_spec(m, model_cached).contains(BenchStep::Generate) <==> m.generate,
        bench_plan_spec(m, model_cached).contains(BenchStep::StartLaya) <==> m.laya,
        bench_plan_spec(m, model_cached).contains(BenchStep::JoinLaya) <==> m.laya,
        bench_plan_spec(m, model_cached).contains(BenchStep::LoadModel) <==> (!model_cached && (
        m.readout || m.generate)),
        (exists|i: int|
            0 <= i < bench_plan_spec(m, model_cached).len() && uses_engine(
                #[trigger] bench_plan_spec(m, model_cached)[i],
            )) <==> (m.readout || m.generate),
{
    broadcast use {
        vstd::seq_lib::lemma_seq_concat_contains_all_elements,
        vstd::seq_lib::lemma_seq_empty_contains_nothing,
        vstd::seq_lib::lemma_seq_contains_after_push,
    };
    let p = bench_plan_spec(m, model_cached);
    let e = engine_steps(m, model_cached);
    let a: int = if m.laya {
        1
    } else {
        0
    };
    assert(p.len() == e.len() + 2 * a);
    if m.readout || m.generate {
        lemma_engine_steps(m, model_cached, 0);
        assert(p[a] == e[0]);
    } else {
        assert forall|i: int| 0 <= i < p.len() implies !uses_engine(#[trigger] p[i]) by {
            assert(e.len() == 0);
            if i < a {
                assert(p[i] == BenchStep::StartLaya);
            } else {
                assert(p[i] == BenchStep::JoinLaya);
            }
        }
    }
}

/// Every readout and every generation comes right after a cleared context (with at most
/// the prompt's tokenizing between), and Laya is started before, and joined after, all
/// engine work.
pub proof fn law_bench_isolates_each_pipeline(m: MethodSet, model_cached: bool, i: int)
    requires
        0 <= i < bench_plan_spec(m, model_cached).len(),
    ensures
        bench_plan_spec(m, model_cached)[i] == BenchStep::Generate ==> bench_plan_spec(
            m,
            model_cached,
        )[i - 1] == BenchStep::ResetContext,
        bench_plan_spec(m, model_cached)[i] == BenchStep::Readout ==> bench_plan_spec(
            m,
            model_cached,
        )[i - 2] == BenchStep::ResetContext && bench_plan_spec(m, model_cached)[i - 1]
            == BenchStep::Tokenize,
        uses_engine(bench_plan_spec(m, model_cached)[i]) && m.laya ==> 0 < i
            < bench_plan_spec(m, model_cached).len() - 1,
        bench_plan_spec(m, model_cached)[i] == BenchStep::StartLaya ==> i == 0,
        bench_plan_spec(m, model_cached)[i] == BenchStep::JoinLaya ==> i == bench_plan_spec(
            m,
            model_cached,
        ).len() - 1,
{
    let p = bench_plan_spec(m, model_cached);
    let e = engine_steps(m, model_cached);
    let a: int = if m.laya {
        1
    } else {
        0
    };
    assert(p.len() == e.len() + 2 * a);
    if i < a {
        assert(p[i] == BenchStep::StartLaya);
    } else if i < a + e.len() {
        let j = i - a;
        lemma_engine_steps(m, model_cached, j);
        assert(p[i] == e[j]);
        if j >= 1 {
            assert(p[i - 1] == e[j - 1]);
        }
        if j >= 2 {
            assert(p[i - 2] == e[j - 2]);
        }
    } else {
        assert(p[i] == BenchStep::JoinLaya);
    }
}


/// Routing balances load first and keeps model affinity second: when some worker is idle
/// the request goes to an idle worker, and when every worker is idle it goes to one that
/// already holds the model, if any does.
pub proof fn law_routing_prefers_idle_then_affinity(workers: Seq<(usize, bool)>, r: int, k: int)
    requires
        first_least_key(workers, r),
        0 <= k < workers.len(),
    ensures
        workers[k].0 == 0 ==> workers[r].0 == 0,
        (forall|j: int| 0 <= j < workers.len() ==> #[trigger] workers[j].0 == 0) && workers[k].1
            ==> workers[r].1,
{
    assert(!key_less(route_key(workers[k]), route_key(workers[r])));
}


/// A method list that resolves selects exactly the methods it names, Laya only when it is
/// not skipped; and it resolves exactly when every entry names a method and something is
/// left to run.
pub proof fn law_resolved_methods_are_the_named_ones(list: Seq<Seq<char>>, skip_laya: bool)
    ensures
        resolve_spec(Some(list), skip_laya) matches Ok(m) ==> {
            &&& m.readout == list.contains("readout"@)
            &&& m.generate == list.contains("generate"@)
            &&& m.laya == (list.contains("laya"@) && !skip_laya)
        },
        resolve_spec(Some(list), skip_laya) is Ok <==> {
            &&& forall|i: int| 0 <= i < list.len() ==> known_method(#[trigger] list[i])
            &&& (list.contains("readout"@) || list.contains("generate"@) || (list.contains(
                "laya"@,
            ) && !skip_laya))
        },
{
    if first_unknown_method(list) >= 0 {
        lemma_first_unknown_is_unknown(list);
    } else {
        lemma_all_known(list);
    }
}

proof fn lemma_first_unknown_is_unknown(list: Seq<Seq<char>>)
    requires
        first_unknown_method(list) >= 0,
    ensures
        0 <= first_unknown_method(list) < list.len(),
        !known_method(list[first_unknown_method(list)]),
    decreases list.len(),
{
    if list.len() > 0 && known_method(list[0]) {
        let t = list.drop_first();
        lemma_first_unknown_is_unknown(t);
        assert(list[1 + first_unknown_method(t)] == t[first_unknown_method(t)]);
    }
}

proof fn lemma_all_known(list: Seq<Seq<char>>)
    requires
        first_unknown_method(list) < 0,
    ensures
        forall|i: int| 0 <= i < list.len() ==> known_method(#[trigger] list[i]),
    decreases list.len(),
{
    if list.len() > 0 {
        let t = list.drop_first();
        lemma_all_known(t);
        assert forall|i: int| 0 <= i < list.len() implies known_method(#[trigger] list[i]) by {
            if i > 0 {
                assert(list[i] == t[i - 1]);
            }
        }
    }
}

} // verus!
