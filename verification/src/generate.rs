//! Post-processing of greedy JSON generation: removal of `<think>...</think>` reasoning
//! blocks, extraction and schema validation of the JSON answer object, and the prompt text
//! the generation and readout pipelines send to the model.
use vstd::prelude::*;
use crate::text::{
    chars_of, extend_chars, find_chars, find_from, first_index, first_index_of, join,
    join_strings, lemma_find_from, lemma_find_from_shift, occurs_at,
    string_of, trim, trim_chars, vec_chars_eq, views_of,
};

verus! {

/// The opening reasoning tag `<think>`.
pub open spec fn think_open() -> Seq<char> {
    seq!['<', 't', 'h', 'i', 'n', 'k', '>']
}

/// The closing reasoning tag `</think>`.
pub open spec fn think_close() -> Seq<char> {
    seq!['<', '/', 't', 'h', 'i', 'n', 'k', '>']
}

/// The text of `s` from `pos` on, with each `<think>` block removed: a block that has a
/// matching `</think>` is removed up to and including that tag, and an unterminated one is
/// removed together with everything after it.
pub open spec fn strip_blocks_from(s: Seq<char>, pos: int) -> Seq<char>
    decreases s.len() + 1 - pos,
{
    if pos < 0 || pos > s.len() {
        seq![]
    } else {
        let p = find_from(s, think_open(), pos);
        if p < pos || p + 7 > s.len() {
            s.skip(pos)
        } else {
            let q = find_from(s, think_close(), p + 7);
            if q < p + 7 || q + 8 > s.len() {
                s.subrange(pos, p)
            } else {
                s.subrange(pos, p) + strip_blocks_from(s, q + 8)
            }
        }
    }
}

/// What `strip_think` returns for `s`: `s` itself when it holds no `<think>`, otherwise the
/// text with every reasoning block removed, trimmed of surrounding white space.
pub open spec fn strip_think_spec(s: Seq<char>) -> Seq<char> {
    if find_from(s, think_open(), 0) < 0 {
        s
    } else {
        trim(strip_blocks_from(s, 0))
    }
}

/// Stripping `x + c` from inside its `c` part gives what stripping `c` gives.
proof fn lemma_strip_blocks_shift(x: Seq<char>, c: Seq<char>, j: int)
    requires
        0 <= j <= c.len(),
    ensures
        strip_blocks_from(x + c, x.len() + j) == strip_blocks_from(c, j),
    decreases c.len() + 1 - j,
{
    let s = x + c;
    let n = x.len();
    lemma_find_from_shift(x, c, think_open(), j);
    let pc = find_from(c, think_open(), j);
    lemma_find_from(c, think_open(), j);
    if pc < j || pc + 7 > c.len() {
        assert(s.skip(n + j) =~= c.skip(j));
    } else {
        lemma_find_from_shift(x, c, think_close(), pc + 7);
        lemma_find_from(c, think_close(), pc + 7);
        let qc = find_from(c, think_close(), pc + 7);
        assert(s.subrange(n + j, n + pc) =~= c.subrange(j, pc));
        if qc < pc + 7 || qc + 8 > c.len() {
        } else {
            lemma_strip_blocks_shift(x, c, qc + 8);
        }
    }
}

/// The first index at which `pat` occurs in `s`, given one occurrence and none before it.
proof fn lemma_first_occurrence(s: Seq<char>, pat: Seq<char>, start: int, i: int)
    requires
        0 <= start <= i,
        occurs_at(s, pat, i),
        forall|j: int| start <= j < i ==> !occurs_at(s, pat, j),
    ensures
        find_from(s, pat, start) == i,
{
    lemma_find_from(s, pat, start);
}

/// A text with no `<think>` comes back from `strip_think` exactly as it was.
pub proof fn law_strip_think_without_open_tag(s: Seq<char>)
    requires
        forall|j: int| 0 <= j ==> !occurs_at(s, think_open(), j),
    ensures
        strip_think_spec(s) == s,
{
    lemma_find_from(s, think_open(), 0);
}

/// A complete `<think> b </think>` block is removed together with its tags, and stripping
/// goes on after it: `a <think> b </think> c` strips to `a` followed by `c` stripped, where
/// no `<think>` starts inside `a` and no `</think>` starts inside `b`.
pub proof fn law_strip_removes_complete_block(a: Seq<char>, b: Seq<char>, c: Seq<char>)
    requires
        forall|j: int|
            0 <= j < a.len() ==> !occurs_at(
                a + think_open() + b + think_close() + c,
                think_open(),
                j,
            ),
        forall|j: int|
            a.len() + 7 <= j < a.len() + 7 + b.len() ==> !occurs_at(
                a + think_open() + b + think_close() + c,
                think_close(),
                j,
            ),
    ensures
        strip_blocks_from(a + think_open() + b + think_close() + c, 0) == a + strip_blocks_from(
            c,
            0,
        ),
        strip_think_spec(a + think_open() + b + think_close() + c) == trim(
            a + strip_blocks_from(c, 0),
        ),
{
    let x = a + think_open() + b + think_close();
    let s = x + c;
    assert(a + think_open() + b + think_close() + c == s);
    let p = a.len() as int;
    assert(s.subrange(p, p + 7) =~= think_open());
    lemma_first_occurrence(s, think_open(), 0, p);
    let q = p + 7 + b.len() as int;
    assert(s.subrange(q, q + 8) =~= think_close());
    lemma_first_occurrence(s, think_close(), p + 7, q);
    lemma_strip_blocks_shift(x, c, 0);
    assert(x.len() == q + 8);
    assert(s.subrange(0, p) =~= a);
}

/// An unterminated `<think>` is dropped with everything after it: `a <think> b` strips to
/// `a` trimmed, where no `<think>` starts inside `a` and no `</think>` starts after the tag.
pub proof fn law_strip_drops_unterminated_block(a: Seq<char>, b: Seq<char>)
    requires
        forall|j: int| 0 <= j < a.len() ==> !occurs_at(a + think_open() + b, think_open(), j),
        forall|j: int| a.len() + 7 <= j ==> !occurs_at(a + think_open() + b, think_close(), j),
    ensures
        strip_think_spec(a + think_open() + b) == trim(a),
{
    let s = a + think_open() + b;
    let p = a.len() as int;
    assert(s.subrange(p, p + 7) =~= think_open());
    lemma_first_occurrence(s, think_open(), 0, p);
    lemma_find_from(s, think_close(), p + 7);
    assert(s.subrange(0, p) =~= a);
}

fn think_open_chars() -> (r: Vec<char>)
    ensures
        r@ == think_open(),
{
    let r = vec!['<', 't', 'h', 'i', 'n', 'k', '>'];
    assert(r@ =~= think_open());
    r
}

fn think_close_chars() -> (r: Vec<char>)
    ensures
        r@ == think_close(),
{
    let r = vec!['<', '/', 't', 'h', 'i', 'n', 'k', '>'];
    assert(r@ =~= think_close());
    r
}

/// Strips `<think>...</think>` reasoning blocks from `text`:
/// with no `<think>` the text comes back unchanged; each `<think>` with a matching
/// `</think>` is removed with everything between; an unterminated `<think>` is removed
/// with everything after it; when anything was removed the result is trimmed.
pub fn strip_think(text: &str) -> (r: String)
    ensures
        r@ == strip_think_spec(text@),
{
    let s = chars_of(text);
    let open = think_open_chars();
    let close = think_close_chars();
    let n = s.len();
    if find_chars(&s, &open, 0).is_none() {
        return string_of(&s);
    }
    let mut out: Vec<char> = Vec::new();
    let mut pos: usize = 0;
    loop
        invariant_except_break
            out@ + strip_blocks_from(s@, pos as int) == strip_blocks_from(s@, 0),
        invariant
            n == s@.len(),
            pos <= n,
            open@ == think_open(),
            close@ == think_close(),
        ensures
            out@ == strip_blocks_from(s@, 0),
        decreases n - pos,
    {
        proof {
            lemma_find_from(s@, think_open(), pos as int);
        }
        match find_chars(&s, &open, pos) {
            None => {
                let ghost o = out@;
                let mut k = pos;
                while k < n
                    invariant
                        pos <= k <= n,
                        n == s@.len(),
                        out@ == o + s@.subrange(pos as int, k as int),
                    decreases n - k,
                {
                    out.push(s[k]);
                    k = k + 1;
                }
                assert(s@.subrange(pos as int, n as int) =~= s@.skip(pos as int));
                assert(out@ == strip_blocks_from(s@, 0));
                break ;
            },
            Some(p) => {
                assert(occurs_at(s@, think_open(), p as int));
                let ghost o = out@;
                let mut k = pos;
                while k < p
                    invariant
                        pos <= k <= p,
                        p + 7 <= n,
                        n == s@.len(),
                        out@ == o + s@.subrange(pos as int, k as int),
                    decreases p - k,
                {
                    out.push(s[k]);
                    k = k + 1;
                }
                proof {
                    lemma_find_from(s@, think_close(), p + 7);
                }
                match find_chars(&s, &close, p + 7) {
                    None => {
                        assert(out@ == strip_blocks_from(s@, 0));
                        break ;
                    },
                    Some(q) => {
                        assert(occurs_at(s@, think_close(), q as int));
                        assert(out@ + strip_blocks_from(s@, q + 8) =~= o + strip_blocks_from(
                            s@,
                            pos as int,
                        ));
                        pos = q + 8;
                    },
                }
            },
        }
    }
    let t = trim_chars(&out);
    string_of(&t)
}

/// The string member `key` of the JSON document `text`, when `text` parses as JSON and is
/// an object whose member `key` is a string; `None` otherwise.
pub uninterp spec fn json_member(text: Seq<char>, key: Seq<char>) -> Option<Seq<char>>;

/// Parses `text` with `serde_json::from_str` into a `serde_json::Value` and reads the
/// object's member `key` as a string (`Value::as_object`, `Map::get`, `Value::as_str`).
/// The contract claims only that the result is a function of `text` and `key`, named
/// `json_member`; what JSON parsing accepts is serde_json's and is not restated here.
#[verifier::external_body]
fn json_string_member(text: &str, key: &str) -> (r: Option<String>)
    ensures
        match r {
            Some(a) => json_member(text@, key@) == Some(a@),
            None => json_member(text@, key@) is None,
        },
{
    let v: serde_json::Value = serde_json::from_str(text).ok()?;
    v.as_object()?.get(key)?.as_str().map(|a| a.to_string())
}

/// The index of the `}` that closes the brace opened before `i`, scanning `s` from `i`
/// with `depth` braces open, `in_str` telling whether the scan is inside a JSON string
/// literal and `escaped` whether the previous character there was a backslash; braces
/// inside string literals do not count. `-1` when the text ends first.
pub open spec fn closing_brace(s: Seq<char>, i: int, depth: int, in_str: bool, escaped: bool) -> int
    decreases s.len() - i,
{
    if i < 0 || i >= s.len() {
        -1
    } else if in_str {
        if escaped {
            closing_brace(s, i + 1, depth, true, false)
        } else if s[i] == '\\' {
            closing_brace(s, i + 1, depth, true, true)
        } else if s[i] == '"' {
            closing_brace(s, i + 1, depth, false, false)
        } else {
            closing_brace(s, i + 1, depth, true, false)
        }
    } else if s[i] == '"' {
        closing_brace(s, i + 1, depth, true, false)
    } else if s[i] == '{' {
        closing_brace(s, i + 1, depth + 1, false, false)
    } else if s[i] == '}' {
        if depth <= 1 {
            i
        } else {
            closing_brace(s, i + 1, depth - 1, false, false)
        }
    } else {
        closing_brace(s, i + 1, depth, false, false)
    }
}

/// The first balanced `{...}` span of `s`: from its first `{` through the `}` that closes
/// it, counting nested braces outside JSON string literals; `None` when there is no `{`
/// or it is never closed.
pub open spec fn json_candidate(s: Seq<char>) -> Option<Seq<char>> {
    let a = first_index_of(s, '{');
    if a < 0 {
        None
    } else {
        let b = closing_brace(s, a + 1, 1, false, false);
        if b < 0 {
            None
        } else {
            Some(s.subrange(a, b + 1))
        }
    }
}

proof fn lemma_closing_brace(s: Seq<char>, i: int, depth: int, in_str: bool, escaped: bool)
    requires
        0 <= i,
    ensures
        closing_brace(s, i, depth, in_str, escaped) == -1 || i <= closing_brace(
            s,
            i,
            depth,
            in_str,
            escaped,
        ) < s.len(),
    decreases s.len() - i,
{
    if i < s.len() {
        if in_str {
            if escaped {
                lemma_closing_brace(s, i + 1, depth, true, false);
            } else if s[i] == '\\' {
                lemma_closing_brace(s, i + 1, depth, true, true);
            } else if s[i] == '"' {
                lemma_closing_brace(s, i + 1, depth, false, false);
            } else {
                lemma_closing_brace(s, i + 1, depth, true, false);
            }
        } else if s[i] == '"' {
            lemma_closing_brace(s, i + 1, depth, true, false);
        } else if s[i] == '{' {
            lemma_closing_brace(s, i + 1, depth + 1, false, false);
        } else if s[i] == '}' {
            if depth > 1 {
                lemma_closing_brace(s, i + 1, depth - 1, false, false);
            }
        } else {
            lemma_closing_brace(s, i + 1, depth, false, false);
        }
    }
}

/// The index of the `}` closing the brace opened before `i` (see `closing_brace`).
fn closing_brace_exec(s: &Vec<char>, i: usize) -> (r: Option<usize>)
    requires
        1 <= i <= s@.len(),
    ensures
        match r {
            Some(b) => b as int == closing_brace(s@, i as int, 1, false, false) && i <= b
                < s@.len(),
            None => closing_brace(s@, i as int, 1, false, false) < 0,
        },
{
    let mut k = i;
    let mut depth: usize = 1;
    let mut in_str = false;
    let mut escaped = false;
    while k < s.len()
        invariant
            1 <= i <= k <= s@.len(),
            1 <= depth <= k - i + 1,
            depth <= k,
            !in_str ==> !escaped,
            closing_brace(s@, k as int, depth as int, in_str, escaped) == closing_brace(
                s@,
                i as int,
                1,
                false,
                false,
            ),
        decreases s@.len() - k,
    {
        let c = s[k];
        if in_str {
            if escaped {
                escaped = false;
            } else if c == '\\' {
                escaped = true;
            } else if c == '"' {
                in_str = false;
            }
        } else if c == '"' {
            in_str = true;
        } else if c == '{' {
            depth = depth + 1;
        } else if c == '}' {
            if depth <= 1 {
                proof {
                    lemma_closing_brace(s@, i as int, 1, false, false);
                }
                return Some(k);
            }
            depth = depth - 1;
        }
        k = k + 1;
    }
    None
}

/// Whether the trimmed `answer` equals one of the trimmed `options`.
pub open spec fn answer_among(answer: Seq<char>, options: Seq<Seq<char>>) -> bool {
    exists|i: int| 0 <= i < options.len() && #[trigger] trim(options[i]) == trim(answer)
}

/// What `parse_and_validate` returns: the candidate JSON object text, when it is a JSON
/// object whose `"answer"` string names one of the options.
pub open spec fn validated_answer(s: Seq<char>, options: Seq<Seq<char>>) -> Option<Seq<char>> {
    match json_candidate(s) {
        None => None,
        Some(c) => match json_member(c, "answer"@) {
            Some(ans) => if answer_among(ans, options) {
                Some(c)
            } else {
                None
            },
            None => None,
        },
    }
}

/// Whether, scanning `s` from `pos` the way `strip_think` does, a `<think>` block is left
/// unterminated at the end.
pub open spec fn block_open_from(s: Seq<char>, pos: int) -> bool
    decreases s.len() + 1 - pos,
{
    if pos < 0 || pos > s.len() {
        false
    } else {
        let p = find_from(s, think_open(), pos);
        if p < pos || p + 7 > s.len() {
            false
        } else {
            let q = find_from(s, think_close(), p + 7);
            if q < p + 7 || q + 8 > s.len() {
                true
            } else {
                block_open_from(s, q + 8)
            }
        }
    }
}

/// Whether the text generated so far is inside an unterminated `<think>` block, i.e. the
/// model is still reasoning.
pub fn think_block_open(text: &str) -> (r: bool)
    ensures
        r == block_open_from(text@, 0),
{
    let s = chars_of(text);
    let open = think_open_chars();
    let close = think_close_chars();
    let n = s.len();
    let mut pos: usize = 0;
    loop
        invariant
            n == s@.len(),
            pos <= n,
            open@ == think_open(),
            close@ == think_close(),
            s@ == text@,
            block_open_from(s@, pos as int) == block_open_from(s@, 0),
        decreases n - pos,
    {
        proof {
            lemma_find_from(s@, think_open(), pos as int);
        }
        match find_chars(&s, &open, pos) {
            None => {
                return false;
            },
            Some(p) => {
                assert(occurs_at(s@, think_open(), p as int));
                proof {
                    lemma_find_from(s@, think_close(), p + 7);
                }
                match find_chars(&s, &close, p + 7) {
                    None => {
                        return true;
                    },
                    Some(q) => {
                        assert(occurs_at(s@, think_close(), q as int));
                        pos = q + 8;
                    },
                }
            },
        }
    }
}

/// Extracts the first balanced `{...}` span of `text` (models often wrap JSON in prose or
/// code fences) and validates it against the option schema: a JSON object with
/// an `"answer"` string member whose trimmed value equals one of the trimmed `options`.
/// Returns that JSON text when it is valid.
pub fn parse_and_validate(text: &str, options: &[String]) -> (r: Option<String>)
    ensures
        match r {
            Some(j) => validated_answer(text@, views_of(options@)) == Some(j@),
            None => validated_answer(text@, views_of(options@)) is None,
        },
{
    let s = chars_of(text);
    let n = s.len();
    let start = match first_index(&s, '{') {
        Some(i) => i,
        None => return None,
    };
    let end = match closing_brace_exec(&s, start + 1) {
        Some(i) => i,
        None => return None,
    };
    let mut cand: Vec<char> = Vec::new();
    let mut k = start;
    assert(cand@ =~= s@.subrange(start as int, start as int));
    while k <= end
        invariant
            start <= k <= end + 1,
            end < n,
            n == s@.len(),
            cand@ == s@.subrange(start as int, k as int),
        decreases end + 1 - k,
    {
        cand.push(s[k]);
        k = k + 1;
    }
    let candidate = string_of(&cand);
    assert(json_candidate(s@) == Some(candidate@));
    let answer = match json_string_member(candidate.as_str(), "answer") {
        Some(a) => a,
        None => return None,
    };
    if answer_among_options(answer.as_str(), options) {
        Some(candidate)
    } else {
        None
    }
}

/// Whether the trimmed `answer` equals one of the trimmed `options`: the check applied to
/// the `"answer"` member that JSON parsing hands back.
pub fn answer_among_options(answer: &str, options: &[String]) -> (r: bool)
    ensures
        r == answer_among(answer@, views_of(options@)),
{
    let answer_trimmed = trim_chars(&chars_of(answer));
    let mut i: usize = 0;
    while i < options.len()
        invariant
            i <= options@.len(),
            answer_trimmed@ == trim(answer@),
            forall|j: int| 0 <= j < i ==> trim(views_of(options@)[j]) != trim(answer@),
        decreases options@.len() - i,
    {
        let o = trim_chars(&chars_of(options[i].as_str()));
        if vec_chars_eq(&o, &answer_trimmed) {
            assert(trim(views_of(options@)[i as int]) == trim(answer@));
            return true;
        }
        i = i + 1;
    }
    false
}

/// The instruction the constrained readout sends: the prompt, the option list and a request
/// for the option letter alone.
pub open spec fn readout_instruction_spec(prompt: Seq<char>, options: Seq<Seq<char>>) -> Seq<
    char,
> {
    prompt + "\nOptions: "@ + join(options, ", "@) + "\nAnswer with only the option letter."@
}

/// Builds the constrained-readout instruction for `prompt` and `options`.
pub fn readout_instruction(prompt: &str, options: &[String]) -> (r: String)
    ensures
        r@ == readout_instruction_spec(prompt@, views_of(options@)),
{
    let mut v = chars_of(prompt);
    extend_chars(&mut v, &chars_of("\nOptions: "));
    extend_chars(&mut v, &join_strings(options, &chars_of(", ")));
    extend_chars(&mut v, &chars_of("\nAnswer with only the option letter."));
    string_of(&v)
}

/// The continuation appended after the chat-templated readout prompt, so the next token is
/// the option label.
pub open spec fn readout_answer_cue() -> Seq<char> {
    "Answer: "@
}

/// Appends the readout answer cue to the chat-templated prompt.
pub fn with_readout_cue(chat_prompt: &str) -> (r: String)
    ensures
        r@ == chat_prompt@ + readout_answer_cue(),
{
    let mut v = chars_of(chat_prompt);
    extend_chars(&mut v, &chars_of("Answer: "));
    string_of(&v)
}

/// The request the JSON generation sends: the prompt, the option list and the required
/// answer shape `{"answer": "<one of the options above>"}`.
pub open spec fn generation_request_spec(prompt: Seq<char>, options: Seq<Seq<char>>) -> Seq<
    char,
> {
    prompt + "\nOptions: "@ + join(options, ", "@)
        + "\nRespond with ONLY a JSON object of the exact form {\"answer\": \"<one of the options above>\"}."@
}

/// Builds the generation request for `prompt` and `options`.
pub fn generation_request(prompt: &str, options: &[String]) -> (r: String)
    ensures
        r@ == generation_request_spec(prompt@, views_of(options@)),
{
    let mut v = chars_of(prompt);
    extend_chars(&mut v, &chars_of("\nOptions: "));
    extend_chars(&mut v, &join_strings(options, &chars_of(", ")));
    extend_chars(
        &mut v,
        &chars_of(
            "\nRespond with ONLY a JSON object of the exact form {\"answer\": \"<one of the options above>\"}.",
        ),
    );
    string_of(&v)
}

/// The closed, empty reasoning block seeded after the chat-templated prompt when a model's
/// reasoning is suppressed.
pub open spec fn empty_think_block() -> Seq<char> {
    "<think>\n\n</think>\n\n"@
}

/// The generation prompt: the chat-templated prompt, followed by a closed, empty reasoning
/// block exactly when `suppress_think` is set.
pub fn generation_prompt(chat_prompt: &str, suppress_think: bool) -> (r: String)
    ensures
        suppress_think ==> r@ == chat_prompt@ + empty_think_block(),
        !suppress_think ==> r@ == chat_prompt@,
{
    let mut v = chars_of(chat_prompt);
    if suppress_think {
        extend_chars(&mut v, &chars_of("<think>\n\n</think>\n\n"));
    }
    string_of(&v)
}


/// The most steps greedy generation takes: each step emits one token, stops, or closes an
/// overlong reasoning block.
pub const MAX_TOKENS: usize = 768;

/// What greedy generation does with the token the model chose next.
#[derive(Clone, Copy, Debug, PartialEq, Eq, Structural)]
pub enum GenerationStep {
    /// Stop generating: the step limit is reached or the model chose an end-of-generation
    /// token.
    Finish,
    /// Discard the chosen token and append the closing tag and a blank line instead, so the
    /// model moves from reasoning to its answer.
    CloseThink,
    /// Append the chosen token's text and go on.
    Emit,
}

/// The text appended to end a reasoning block that ran past its budget: `</think>` and a
/// blank line.
pub open spec fn close_injection() -> Seq<char> {
    seq!['<', '/', 't', 'h', 'i', 'n', 'k', '>', '\n', '\n']
}

/// Whether `generated` tokens have used up the reasoning budget (`None`: unbounded).
pub open spec fn think_budget_spent(think_budget: Option<usize>, generated: usize) -> bool {
    match think_budget {
        Some(b) => generated >= b,
        None => false,
    }
}

/// The next step of greedy generation, after `steps` steps that emitted `generated`
/// tokens forming `text`: finish at the step limit or on an end-of-generation token;
/// otherwise, for a model that reasons visibly, close a reasoning block that is still open
/// once the budget is spent (at most once, `closed_by_force` telling whether it happened);
/// otherwise emit the token.
pub open spec fn generation_step_spec(
    steps: usize,
    next_is_eog: bool,
    suppress_think: bool,
    think_budget: Option<usize>,
    generated: usize,
    closed_by_force: bool,
    text: Seq<char>,
) -> GenerationStep {
    if steps >= MAX_TOKENS || next_is_eog {
        GenerationStep::Finish
    } else if !suppress_think && !closed_by_force && think_budget_spent(think_budget, generated)
        && block_open_from(text, 0) {
        GenerationStep::CloseThink
    } else {
        GenerationStep::Emit
    }
}

/// Decides the next step of greedy generation (see `generation_step_spec`).
pub fn generation_step(
    steps: usize,
    next_is_eog: bool,
    suppress_think: bool,
    think_budget: Option<usize>,
    generated: usize,
    closed_by_force: bool,
    text: &str,
) -> (r: GenerationStep)
    ensures
        r == generation_step_spec(
            steps,
            next_is_eog,
            suppress_think,
            think_budget,
            generated,
            closed_by_force,
            text@,
        ),
{
    if steps >= MAX_TOKENS || next_is_eog {
        return GenerationStep::Finish;
    }
    let spent = match think_budget {
        Some(b) => generated >= b,
        None => false,
    };
    if !suppress_think && !closed_by_force && spent && think_block_open(text) {
        GenerationStep::CloseThink
    } else {
        GenerationStep::Emit
    }
}

/// The text appended when an overlong reasoning block is closed.
pub fn think_close_injection() -> (r: String)
    ensures
        r@ == close_injection(),
{
    let v = vec!['<', '/', 't', 'h', 'i', 'n', 'k', '>', '\n', '\n'];
    assert(v@ =~= close_injection());
    string_of(&v)
}

/// The state of greedy generation: the steps taken, the tokens emitted, whether an
/// overlong reasoning block was closed by force, and the text generated so far.
pub struct GenerationState {
    pub steps: usize,
    pub generated: usize,
    pub closed_by_force: bool,
    pub text: String,
}

impl GenerationState {
    /// The state before the first step.
    pub fn new() -> (r: Self)
        ensures
            r.steps == 0,
            r.generated == 0,
            !r.closed_by_force,
            r.text@ == Seq::<char>::empty(),
    {
        let v: Vec<char> = Vec::new();
        GenerationState { steps: 0, generated: 0, closed_by_force: false, text: string_of(&v) }
    }

    /// Performs `step`: emitting appends the chosen token's text `piece` and counts the
    /// token; closing reasoning appends the closing tag and a blank line and records the
    /// forced close; either takes one step. Finishing changes nothing.
    pub fn advance(&mut self, step: GenerationStep, piece: &str)
        requires
            step != GenerationStep::Finish ==> old(self).steps < MAX_TOKENS,
            old(self).generated <= old(self).steps,
        ensures
            final(self).generated <= final(self).steps,
            step == GenerationStep::Finish ==> final(self).steps == old(self).steps
                && final(self).generated == old(self).generated && final(self).closed_by_force
                == old(self).closed_by_force && final(self).text@ == old(self).text@,
            step == GenerationStep::Emit ==> final(self).steps == old(self).steps + 1
                && final(self).generated == old(self).generated + 1 && final(self).closed_by_force
                == old(self).closed_by_force && final(self).text@ == old(self).text@ + piece@,
            step == GenerationStep::CloseThink ==> final(self).steps == old(self).steps + 1
                && final(self).generated == old(self).generated && final(self).closed_by_force
                && final(self).text@ == old(self).text@ + close_injection() && !block_open_from(
                final(self).text@,
                0,
            ),
    {
        match step {
            GenerationStep::Finish => {},
            GenerationStep::Emit => {
                let mut v = chars_of(self.text.as_str());
                extend_chars(&mut v, &chars_of(piece));
                self.text = string_of(&v);
                self.generated = self.generated + 1;
                self.steps = self.steps + 1;
            },
            GenerationStep::CloseThink => {
                let mut v = chars_of(self.text.as_str());
                extend_chars(&mut v, &chars_of(think_close_injection().as_str()));
                proof {
                    law_forced_close_ends_reasoning(self.text@);
                }
                self.text = string_of(&v);
                self.closed_by_force = true;
                self.steps = self.steps + 1;
            },
        }
    }
}

/// Searching `s + t` from inside `s`, where `pat` cannot start in `s` and run into `t`,
/// finds what searching `s` finds, or else what searching `s + t` from the end of `s`
/// finds.
proof fn lemma_find_in_prefix(s: Seq<char>, t: Seq<char>, pat: Seq<char>, start: int)
    requires
        0 <= start <= s.len(),
        forall|i: int|
            start <= i < s.len() && i + pat.len() > s.len() ==> !#[trigger] occurs_at(
                s + t,
                pat,
                i,
            ),
    ensures
        find_from(s, pat, start) >= 0 ==> find_from(s + t, pat, start) == find_from(
            s,
            pat,
            start,
        ),
        find_from(s, pat, start) < 0 ==> find_from(s + t, pat, start) == find_from(
            s + t,
            pat,
            s.len() as int,
        ),
    decreases s.len() - start,
{
    let whole = s + t;
    if start == s.len() {
        if pat.len() == 0 {
            assert(s.subrange(start, start) =~= pat);
            assert(whole.subrange(start, start) =~= pat);
        }
    } else if start + pat.len() > s.len() {
        assert(!occurs_at(whole, pat, start));
        lemma_find_in_prefix(s, t, pat, start + 1);
    } else {
        assert(whole.subrange(start, start + pat.len()) =~= s.subrange(start, start + pat.len()));
        if !occurs_at(s, pat, start) {
            lemma_find_in_prefix(s, t, pat, start + 1);
        }
    }
}

/// Neither tag can start inside `s` and run into an appended `</think>`: the character
/// there is `<`, which neither tag holds past its first place.
proof fn lemma_no_tag_across(s: Seq<char>)
    ensures
        forall|i: int|
            0 <= i < s.len() && i + 7 > s.len() ==> !#[trigger] occurs_at(
                s + close_injection(),
                think_open(),
                i,
            ),
        forall|i: int|
            0 <= i < s.len() && i + 8 > s.len() ==> !#[trigger] occurs_at(
                s + close_injection(),
                think_close(),
                i,
            ),
{
    let whole = s + close_injection();
    assert(whole[s.len() as int] == '<');
    assert forall|i: int|
        0 <= i < s.len() && i + 7 > s.len() implies !#[trigger] occurs_at(
            whole,
            think_open(),
            i,
        ) by {
        if occurs_at(whole, think_open(), i) {
            assert(whole.subrange(i, i + 7)[s.len() - i] == whole[s.len() as int]);
        }
    }
    assert forall|i: int|
        0 <= i < s.len() && i + 8 > s.len() implies !#[trigger] occurs_at(
            whole,
            think_close(),
            i,
        ) by {
        if occurs_at(whole, think_close(), i) {
            assert(whole.subrange(i, i + 8)[s.len() - i] == whole[s.len() as int]);
        }
    }
}

/// After `s`, the appended text holds `</think>` at its start and no `<think>`.
proof fn lemma_injection_tags(s: Seq<char>)
    ensures
        find_from(s + close_injection(), think_open(), s.len() as int) < 0,
        find_from(s + close_injection(), think_close(), s.len() as int) == s.len(),
{
    let c = close_injection();
    let whole = s + c;
    lemma_find_from_shift(s, c, think_open(), 0);
    lemma_find_from_shift(s, c, think_close(), 0);
    assert(c.subrange(0, 8) =~= think_close());
    lemma_find_from(c, think_open(), 0);
    if find_from(c, think_open(), 0) >= 0 {
        let k = find_from(c, think_open(), 0);
        assert(c.subrange(k, k + 7)[0] == c[k]);
        assert(c.subrange(k, k + 7)[1] == c[k + 1]);
    }
}

/// Scanning `s + close_injection()` from inside `s` never ends in an open block.
proof fn lemma_injection_closes(s: Seq<char>, pos: int)
    requires
        0 <= pos <= s.len(),
    ensures
        !block_open_from(s + close_injection(), pos),
    decreases s.len() - pos,
{
    let c = close_injection();
    let whole = s + c;
    lemma_no_tag_across(s);
    lemma_injection_tags(s);
    lemma_find_in_prefix(s, c, think_open(), pos);
    lemma_find_from(s, think_open(), pos);
    let p = find_from(s, think_open(), pos);
    if p >= 0 {
        lemma_find_in_prefix(s, c, think_close(), p + 7);
        lemma_find_from(s, think_close(), p + 7);
        let q = find_from(s, think_close(), p + 7);
        assert(find_from(whole, think_open(), pos) == p);
        if q >= 0 {
            assert(find_from(whole, think_close(), p + 7) == q);
            lemma_injection_closes(s, q + 8);
        } else {
            let e = s.len() + 8int;
            assert(find_from(whole, think_close(), p + 7) == s.len());
            assert(find_from(whole, think_open(), e) < 0);
            assert(!block_open_from(whole, e));
        }
    } else {
        assert(find_from(whole, think_open(), pos) < 0);
    }
}

/// Appending the closing tag and a blank line to any generated text leaves no reasoning
/// block open, so a forced close moves generation out of reasoning.
pub proof fn law_forced_close_ends_reasoning(s: Seq<char>)
    ensures
        !block_open_from(s + close_injection(), 0),
{
    lemma_injection_closes(s, 0);
}

/// Generation never runs past the step limit, never emits on an end-of-generation token,
/// and never closes reasoning for a model whose reasoning is suppressed, before the budget
/// is spent, or a second time.
pub proof fn law_generation_step_bounds(
    steps: usize,
    next_is_eog: bool,
    suppress_think: bool,
    think_budget: Option<usize>,
    generated: usize,
    closed_by_force: bool,
    text: Seq<char>,
)
    ensures
        steps >= MAX_TOKENS || next_is_eog ==> generation_step_spec(
            steps,
            next_is_eog,
            suppress_think,
            think_budget,
            generated,
            closed_by_force,
            text,
        ) == GenerationStep::Finish,
        generation_step_spec(
            steps,
            next_is_eog,
            suppress_think,
            think_budget,
            generated,
            closed_by_force,
            text,
        ) == GenerationStep::CloseThink ==> !suppress_think && !closed_by_force
            && think_budget_spent(think_budget, generated) && block_open_from(text, 0),
        think_budget is None && steps < MAX_TOKENS && !next_is_eog ==> generation_step_spec(
            steps,
            next_is_eog,
            suppress_think,
            think_budget,
            generated,
            closed_by_force,
            text,
        ) == GenerationStep::Emit,
{
}

} // verus!
