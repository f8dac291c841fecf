//! The integer and text decisions of the native Laya scorer: sequence padding, the bounded
//! cache of built graphs, and the temperature lookup in the model's metadata.
use vstd::prelude::*;
use crate::text::{
    chars_of, decimal, decimal_chars, extend_chars, find_chars, find_from, lemma_find_from,
    occurs_at, string_of, trim, trim_chars,
};

verus! {

/// The power-of-two lengths `laya serve` pads every request up to.
pub open spec fn buckets() -> Seq<i64> {
    seq![64, 128, 256, 512]
}

/// Default padding granularity: the next multiple of 16.
pub const DEFAULT_SEQ_ALIGN: i64 = 16;

/// At most this many built graphs are cached; the least recently used goes first.
pub const MAX_GRAPHS: usize = 6;

/// The least multiple of `a` that is at least `x`.
pub open spec fn round_up(x: int, a: int) -> int {
    (x + a - 1) / a * a
}

/// The padded length for `n` real tokens: with `seq_align > 1`, the next multiple of it
/// (at least `seq_align`) if that is at most 512; otherwise the first bucket that holds
/// `n`; `None` if the model cannot hold the sequence.
pub open spec fn pad_seq_spec(seq_align: i64, n: usize) -> Option<i64> {
    if seq_align > 1 {
        let p = round_up(vstd::math::max((n as i64) as int, seq_align as int), seq_align as int);
        if p <= 512 {
            Some(p as i64)
        } else {
            None
        }
    } else if n <= 64 {
        Some(64)
    } else if n <= 128 {
        Some(128)
    } else if n <= 256 {
        Some(256)
    } else if n <= 512 {
        Some(512)
    } else {
        None
    }
}

/// Padded sequence length for `n` real tokens, or `None` if the model cannot hold it
/// (see `pad_seq_spec`). `seq_align = 0` reproduces `laya serve`'s buckets exactly.
pub fn pad_seq(seq_align: i64, n: usize) -> (r: Option<i64>)
    requires
        seq_align > 1 ==> vstd::math::max((n as i64) as int, seq_align as int) + seq_align
            <= i64::MAX,
    ensures
        r == pad_seq_spec(seq_align, n),
{
    if seq_align > 1 {
        let a = seq_align;
        let m = if (n as i64) > a {
            n as i64
        } else {
            a
        };
        assert(((m + a - 1) as int) / (a as int) * (a as int) <= m + a - 1) by (nonlinear_arith)
            requires
                a > 1,
                m >= a,
        ;
        let q = (m + a - 1) / a;
        assert(q as int == ((m + a - 1) as int) / (a as int));
        let p = q * a;
        if p <= 512 {
            Some(p)
        } else {
            None
        }
    } else if n <= 64 {
        Some(64)
    } else if n <= 128 {
        Some(128)
    } else if n <= 256 {
        Some(256)
    } else if n <= 512 {
        Some(512)
    } else {
        None
    }
}

/// Padding never shortens a sequence, stays within the model's 512 positions, and pads to
/// the least admissible length: with `seq_align > 1`, the least multiple of `seq_align`
/// that is at least `n` and at least `seq_align`; otherwise the least bucket that holds `n`.
pub proof fn law_pad_seq_is_least_fit(seq_align: i64, n: usize)
    requires
        n <= i64::MAX,
    ensures
        pad_seq_spec(seq_align, n) matches Some(p) ==> n <= p <= 512,
        seq_align > 1 ==> (pad_seq_spec(seq_align, n) matches Some(p) ==> p % seq_align == 0
            && p >= seq_align && p - seq_align < vstd::math::max(n as int, seq_align as int)),
        seq_align > 1 ==> (pad_seq_spec(seq_align, n) is None <==> round_up(
            vstd::math::max(n as int, seq_align as int),
            seq_align as int,
        ) > 512),
        seq_align <= 1 ==> (pad_seq_spec(seq_align, n) is None <==> n > 512),
        seq_align <= 1 ==> (pad_seq_spec(seq_align, n) matches Some(p) ==> buckets().contains(p)
            && forall|i: int| 0 <= i < 4 && buckets()[i] < p ==> buckets()[i] < n),
{
    if seq_align > 1 {
        let a = seq_align as int;
        let x = vstd::math::max(n as int, a);
        assert((n as i64) as int == n as int);
        let p = round_up(x, a);
        assert(p >= x && p % a == 0 && p - a < x) by (nonlinear_arith)
            requires
                a > 1,
                x >= a,
                p == (x + a - 1) / a * a,
        {
            let q = (x + a - 1) / a;
            let r = (x + a - 1) % a;
            assert(x + a - 1 == q * a + r);
            assert(0 <= r < a);
            assert(p == q * a);
            assert((q * a) % a == 0) by {
                vstd::arithmetic::div_mod::lemma_mod_multiples_basic(q, a);
            }
        }
    } else {
        if n <= 64 {
            assert(buckets()[0] == 64);
        } else if n <= 128 {
            assert(buckets()[1] == 128);
        } else if n <= 256 {
            assert(buckets()[2] == 256);
        } else if n <= 512 {
            assert(buckets()[3] == 512);
        }
    }
}

/// `s` without the elements equal to `x`, in order.
pub open spec fn without(s: Seq<i64>, x: i64) -> Seq<i64>
    decreases s.len(),
{
    if s.len() == 0 {
        s
    } else if s.last() == x {
        without(s.drop_last(), x)
    } else {
        without(s.drop_last(), x).push(s.last())
    }
}

/// How many least-recently-used graphs must go before a new one is cached.
pub open spec fn evictions_needed(cached: int) -> int {
    if cached >= MAX_GRAPHS {
        cached - MAX_GRAPHS + 1
    } else {
        0
    }
}

/// The recency list after `touch_graph` records the use of the graph keyed `seq`.
pub open spec fn touched(lru: Seq<i64>, seq: i64, cached: bool) -> Seq<i64> {
    if cached {
        without(lru, seq).push(seq)
    } else {
        without(lru.skip(evictions_needed(lru.len() as int)), seq).push(seq)
    }
}

/// Records the use of the graph keyed `seq` in the recency list `lru` (least recently used
/// first), where `cached` tells whether that graph is already built. A new graph first
/// makes room: the least recently used graphs are evicted until fewer than `MAX_GRAPHS`
/// remain. Returns the evicted keys, oldest first; `seq` ends up last in `lru`.
pub fn touch_graph(lru: &mut Vec<i64>, seq: i64, cached: bool) -> (evicted: Vec<i64>)
    ensures
        final(lru)@ == touched(old(lru)@, seq, cached),
        cached ==> evicted@ == Seq::<i64>::empty() && final(lru)@ == without(old(lru)@, seq).push(
            seq,
        ),
        !cached ==> evicted@ == old(lru)@.take(evictions_needed(old(lru)@.len() as int))
            && final(lru)@ == without(
            old(lru)@.skip(evictions_needed(old(lru)@.len() as int)),
            seq,
        ).push(seq),
{
    let mut evicted: Vec<i64> = Vec::new();
    if !cached {
        let ghost orig = lru@;
        while lru.len() >= MAX_GRAPHS
            invariant
                orig.len() >= lru@.len(),
                lru@ == orig.skip(orig.len() - lru@.len()),
                evicted@ == orig.take(orig.len() - lru@.len()),
                lru@.len() >= MAX_GRAPHS - 1 || orig.len() < MAX_GRAPHS,
                orig.len() < MAX_GRAPHS ==> lru@ == orig,
            decreases lru@.len(),
        {
            let ghost before = lru@;
            let victim = lru.remove(0);
            evicted.push(victim);
            assert(lru@ =~= orig.skip(orig.len() - lru@.len()));
            assert(evicted@ =~= orig.take(orig.len() - lru@.len()));
        }
        assert(orig.len() - lru@.len() == evictions_needed(orig.len() as int));
    }
    let ghost kept = lru@;
    let mut next: Vec<i64> = Vec::new();
    let mut i: usize = 0;
    while i < lru.len()
        invariant
            i <= lru@.len(),
            lru@ == kept,
            next@ == without(kept.take(i as int), seq),
        decreases lru@.len() - i,
    {
        assert(kept.take(i + 1).drop_last() =~= kept.take(i as int));
        if lru[i] != seq {
            next.push(lru[i]);
        }
        i = i + 1;
    }
    assert(kept.take(kept.len() as int) =~= kept);
    next.push(seq);
    *lru = next;
    evicted
}

/// The recency list stays duplicate-free, holds at most `MAX_GRAPHS` keys, and ends with
/// the key just used.
pub proof fn law_graph_cache_bounded(lru: Seq<i64>, seq: i64, cached: bool)
    requires
        forall|i: int, j: int| 0 <= i < j < lru.len() ==> lru[i] != lru[j],
        lru.len() <= MAX_GRAPHS,
        cached <==> lru.contains(seq),
    ensures
        touched(lru, seq, cached).len() <= MAX_GRAPHS,
        touched(lru, seq, cached).last() == seq,
        forall|i: int, j: int|
            0 <= i < j < touched(lru, seq, cached).len() ==> #[trigger] touched(lru, seq, cached)[i]
                != #[trigger] touched(lru, seq, cached)[j],
{
    let base = if cached {
        lru
    } else {
        lru.skip(evictions_needed(lru.len() as int))
    };
    assert forall|i: int, j: int| 0 <= i < j < base.len() implies base[i] != base[j] by {
        if !cached {
            let e = evictions_needed(lru.len() as int);
            assert(base[i] == lru[i + e] && base[j] == lru[j + e]);
        }
    }
    lemma_without(base, seq);
    if cached {
        let k = choose|k: int| 0 <= k < lru.len() && lru[k] == seq;
        lemma_without_shorter(lru, seq, k);
    }
}

proof fn lemma_without(s: Seq<i64>, x: i64)
    requires
        forall|i: int, j: int| 0 <= i < j < s.len() ==> s[i] != s[j],
    ensures
        without(s, x).len() <= s.len(),
        forall|i: int| 0 <= i < without(s, x).len() ==> without(s, x)[i] != x,
        forall|i: int, j: int| 0 <= i < j < without(s, x).len() ==> without(s, x)[i] != without(s, x)[j],
        forall|v: i64| without(s, x).contains(v) ==> s.contains(v),
    decreases s.len(),
{
    if s.len() > 0 {
        let d = s.drop_last();
        assert forall|i: int, j: int| 0 <= i < j < d.len() implies d[i] != d[j] by {
            assert(d[i] == s[i] && d[j] == s[j]);
        }
        lemma_without(d, x);
        let w = without(d, x);
        assert forall|v: i64| w.contains(v) implies s.contains(v) by {
            assert(d.contains(v));
            let k = choose|k: int| 0 <= k < d.len() && d[k] == v;
            assert(s[k] == v);
        }
        if s.last() != x {
            assert(!w.contains(s.last())) by {
                if w.contains(s.last()) {
                    assert(d.contains(s.last()));
                    let k = choose|k: int| 0 <= k < d.len() && d[k] == s.last();
                    assert(s[k] == d[k]);
                    assert(s[k] == s[s.len() - 1]);
                    assert(k < s.len() - 1);
                }
            }
            assert forall|i: int, j: int| 0 <= i < j < w.push(s.last()).len() implies w.push(
                s.last(),
            )[i] != w.push(s.last())[j] by {
                if j == w.len() {
                    assert(w.contains(w[i]));
                }
            }
            assert forall|v: i64| w.push(s.last()).contains(v) implies s.contains(v) by {
                let k = choose|k: int| 0 <= k < w.push(s.last()).len() && w.push(s.last())[k] == v;
                if k < w.len() {
                    assert(w.contains(v));
                } else {
                    assert(s[s.len() - 1] == v);
                }
            }
        }
    }
}

proof fn lemma_without_shorter(s: Seq<i64>, x: i64, k: int)
    requires
        0 <= k < s.len(),
        s[k] == x,
    ensures
        without(s, x).len() < s.len(),
    decreases s.len(),
{
    let d = s.drop_last();
    if k == s.len() - 1 {
        lemma_without_len(d, x);
    } else {
        assert(d[k] == x);
        lemma_without_shorter(d, x, k);
    }
}

proof fn lemma_without_len(s: Seq<i64>, x: i64)
    ensures
        without(s, x).len() <= s.len(),
    decreases s.len(),
{
    if s.len() > 0 {
        lemma_without_len(s.drop_last(), x);
    }
}

/// `without` keeps every element other than `x`.
proof fn lemma_without_keeps(s: Seq<i64>, x: i64, v: i64)
    requires
        s.contains(v),
        v != x,
    ensures
        without(s, x).contains(v),
    decreases s.len(),
{
    let d = s.drop_last();
    if s.last() == v {
        assert(without(s, x).last() == v);
        assert(without(s, x)[without(s, x).len() - 1] == v);
    } else {
        let k = choose|k: int| 0 <= k < s.len() && s[k] == v;
        assert(d[k] == v);
        lemma_without_keeps(d, x, v);
        if s.last() != x {
            let w = without(d, x);
            let k2 = choose|k2: int| 0 <= k2 < w.len() && w[k2] == v;
            assert(w.push(s.last())[k2] == v);
        }
    }
}

/// The graphs kept beside the recency list follow it: when the list holds exactly the
/// keys of the cached graphs, dropping the evicted graphs and adding the graph just used
/// leaves exactly the keys of the new list. The evicted keys are the least recently used
/// ones and never the key just used.
pub proof fn law_graph_cache_mirrors_keys(lru: Seq<i64>, keys: Set<i64>, seq: i64, cached: bool)
    requires
        forall|i: int, j: int| 0 <= i < j < lru.len() ==> lru[i] != lru[j],
        forall|v: i64| keys.contains(v) <==> lru.contains(v),
        cached <==> keys.contains(seq),
    ensures
        ({
            let e = if cached {
                0
            } else {
                evictions_needed(lru.len() as int)
            };
            let evicted = lru.take(e);
            let next = without(lru.skip(e), seq).push(seq);
            &&& !evicted.contains(seq)
            &&& forall|v: i64|
                #[trigger] next.contains(v) <==> ((keys.contains(v) && !evicted.contains(v)) || v
                    == seq)
        }),
{
    let e = if cached {
        0
    } else {
        evictions_needed(lru.len() as int)
    };
    assert(0 <= e <= lru.len());
    let evicted = lru.take(e);
    let base = lru.skip(e);
    let next = without(base, seq).push(seq);
    assert forall|i: int, j: int| 0 <= i < j < base.len() implies base[i] != base[j] by {
        assert(base[i] == lru[i + e] && base[j] == lru[j + e]);
    }
    lemma_without(base, seq);
    if evicted.contains(seq) {
        let k = choose|k: int| 0 <= k < evicted.len() && evicted[k] == seq;
        assert(lru[k] == seq);
        assert(lru.contains(seq));
    }
    assert forall|v: i64|
        #[trigger] next.contains(v) <==> ((keys.contains(v) && !evicted.contains(v)) || v == seq) by {
        let w = without(base, seq);
        if v == seq {
            assert(next[w.len() as int] == seq);
        } else {
            if next.contains(v) {
                let k = choose|k: int| 0 <= k < next.len() && next[k] == v;
                assert(k < w.len());
                assert(w.contains(v));
                assert(base.contains(v));
                let b = choose|b: int| 0 <= b < base.len() && base[b] == v;
                assert(lru[b + e] == v);
                assert(lru.contains(v));
                if evicted.contains(v) {
                    let a = choose|a: int| 0 <= a < evicted.len() && evicted[a] == v;
                    assert(lru[a] == v);
                }
            }
            if keys.contains(v) && !evicted.contains(v) {
                assert(lru.contains(v));
                let k = choose|k: int| 0 <= k < lru.len() && lru[k] == v;
                if k < e {
                    assert(evicted[k] == v);
                }
                assert(base[k - e] == v);
                lemma_without_keeps(base, seq, v);
                let k2 = choose|k2: int| 0 <= k2 < w.len() && w[k2] == v;
                assert(next[k2] == v);
            }
        }
    }
}

/// The temperature bucket of a question with `k` options: `2`, `3-5`, `6-10` or `11+`.
pub open spec fn size_bucket(k: usize) -> Seq<char> {
    if k <= 2 {
        "2"@
    } else if k <= 5 {
        "3-5"@
    } else if k <= 10 {
        "6-10"@
    } else {
        "11+"@
    }
}

/// The JSON key of a `(question type, size)` bucket, with its quotes and colon:
/// `"<qtype>:<size>":`.
pub open spec fn temperature_key(qtype_name: Seq<char>, k: usize) -> Seq<char> {
    "\""@ + qtype_name + ":"@ + size_bucket(k) + "\":"@
}

/// The first index at or after `i` holding `,` or `}`, or `-1`.
pub open spec fn value_end(s: Seq<char>, i: int) -> int
    decreases s.len() - i,
{
    if i < 0 || i >= s.len() {
        -1
    } else if s[i] == ',' || s[i] == '}' {
        i
    } else {
        value_end(s, i + 1)
    }
}

/// The text of a bucket's temperature in `laya.temperature_by_options`: what follows the
/// first occurrence of the bucket's key up to the next `,` or `}`, trimmed; `None` when the
/// key is absent or the value is not terminated.
pub open spec fn temperature_text_spec(s: Seq<char>, qtype_name: Seq<char>, k: usize) -> Option<
    Seq<char>,
> {
    let key = temperature_key(qtype_name, k);
    let p = find_from(s, key, 0);
    if p < 0 {
        None
    } else {
        let e = value_end(s, p + key.len());
        if e < 0 {
            None
        } else {
            Some(trim(s.subrange(p + key.len(), e)))
        }
    }
}

/// Looks the temperature of the `(qtype_name, k options)` bucket up in the JSON text of
/// `laya.temperature_by_options` and returns its number text (see `temperature_text_spec`).
pub fn temperature_text(by_options: &str, qtype_name: &str, k: usize) -> (r: Option<String>)
    ensures
        match r {
            Some(t) => temperature_text_spec(by_options@, qtype_name@, k) == Some(t@),
            None => temperature_text_spec(by_options@, qtype_name@, k) is None,
        },
{
    let size = if k <= 2 {
        "2"
    } else if k <= 5 {
        "3-5"
    } else if k <= 10 {
        "6-10"
    } else {
        "11+"
    };
    let mut key = chars_of("\"");
    extend_chars(&mut key, &chars_of(qtype_name));
    extend_chars(&mut key, &chars_of(":"));
    extend_chars(&mut key, &chars_of(size));
    extend_chars(&mut key, &chars_of("\":"));
    assert(key@ == temperature_key(qtype_name@, k));
    let s = chars_of(by_options);
    let n = s.len();
    let p = match find_chars(&s, &key, 0) {
        Some(p) => p,
        None => return None,
    };
    proof {
        lemma_find_from(s@, key@, 0);
    }
    assert(occurs_at(s@, key@, p as int));
    assert(p + key@.len() <= n);
    let start = p + key.len();
    let mut e = start;
    while e < s.len() && s[e] != ',' && s[e] != '}'
        invariant
            start <= e <= s@.len(),
            value_end(s@, start as int) == value_end(s@, e as int),
        decreases s@.len() - e,
    {
        e = e + 1;
    }
    if e == s.len() {
        return None;
    }
    let mut v: Vec<char> = Vec::new();
    let mut i = start;
    while i < e
        invariant
            start <= i <= e,
            e < s@.len(),
            v@ == s@.subrange(start as int, i as int),
        decreases e - i,
    {
        v.push(s[i]);
        i = i + 1;
    }
    Some(string_of(&trim_chars(&v)))
}

/// Side of the model's baked sliding-window bias matrix.
pub const SLIDE_N: usize = 513;

/// Whether a baked sliding-window bias of `len` elements has the expected
/// `SLIDE_N * SLIDE_N` elements; if not, the load error.
pub fn check_slide_bias_len(len: usize) -> (r: Result<(), String>)
    ensures
        len == 263169 ==> r is Ok,
        len != 263169 ==> (r matches Err(m) && m@ == "slide_bias has "@ + decimal(len as nat)
            + " elements, expected 263169"@),
{
    if len == SLIDE_N * SLIDE_N {
        return Ok(());
    }
    let mut m = chars_of("slide_bias has ");
    extend_chars(&mut m, &decimal_chars(len));
    extend_chars(&mut m, &chars_of(" elements, expected 263169"));
    Err(string_of(&m))
}

/// The error for a question whose options all fell to truncation.
pub open spec fn no_markers_message() -> Seq<char> {
    "no option markers survived truncation"@
}

/// The error for a question with more options than the model scores.
pub open spec fn too_many_options_message(k: usize, max_opts: usize) -> Seq<char> {
    "question has "@ + decimal(k as nat) + " options but this model supports at most "@
        + decimal(max_opts as nat)
        + " (laya.max_opts); refusing to score rather than silently dropping options"@
}

/// A question can be scored only if at least one option marker survived truncation and
/// it has no more options than the model's `max_opts` logit slots; otherwise the error.
pub fn check_option_count(k: usize, max_opts: usize) -> (r: Result<(), String>)
    ensures
        k == 0 ==> (r matches Err(m) && m@ == no_markers_message()),
        k > 0 && k > max_opts ==> (r matches Err(m) && m@ == too_many_options_message(
            k,
            max_opts,
        )),
        k > 0 && k <= max_opts ==> r is Ok,
{
    if k == 0 {
        return Err(String::from_str("no option markers survived truncation"));
    }
    if k > max_opts {
        let mut m = chars_of("question has ");
        extend_chars(&mut m, &decimal_chars(k));
        extend_chars(&mut m, &chars_of(" options but this model supports at most "));
        extend_chars(&mut m, &decimal_chars(max_opts));
        extend_chars(
            &mut m,
            &chars_of(
                " (laya.max_opts); refusing to score rather than silently dropping options",
            ),
        );
        return Err(string_of(&m));
    }
    Ok(())
}


/// The encoder's input ids for a sequence padded to `seq`: the built ids, then `pad` up to
/// the padded length.
pub fn padded_input_ids(ids: &[i32], seq: usize, pad: i32) -> (r: Vec<i32>)
    ensures
        r@.len() == seq,
        forall|i: int|
            0 <= i < seq ==> #[trigger] r@[i] == if i < ids@.len() {
                ids@[i]
            } else {
                pad
            },
{
    let mut r: Vec<i32> = Vec::new();
    let mut i: usize = 0;
    while i < seq
        invariant
            i <= seq,
            r@.len() == i,
            forall|j: int|
                0 <= j < i ==> #[trigger] r@[j] == if j < ids@.len() {
                    ids@[j]
                } else {
                    pad
                },
        decreases seq - i,
    {
        if i < ids.len() {
            r.push(ids[i]);
        } else {
            r.push(pad);
        }
        i = i + 1;
    }
    r
}

/// The head's marker positions, one per logit slot: the option markers, then `0` for the
/// slots no option uses.
pub fn marker_slots(markers: &[i32], slots: usize) -> (r: Vec<i32>)
    ensures
        r@.len() == slots,
        forall|i: int|
            0 <= i < slots ==> #[trigger] r@[i] == if i < markers@.len() {
                markers@[i]
            } else {
                0
            },
{
    let mut r: Vec<i32> = Vec::new();
    let mut i: usize = 0;
    while i < slots
        invariant
            i <= slots,
            r@.len() == i,
            forall|j: int|
                0 <= j < i ==> #[trigger] r@[j] == if j < markers@.len() {
                    markers@[j]
                } else {
                    0
                },
        decreases slots - i,
    {
        if i < markers.len() {
            r.push(markers[i]);
        } else {
            r.push(0);
        }
        i = i + 1;
    }
    r
}

/// Whether `k` options fit the `n_slots` slots of the logits tensor the scores are read
/// from; if not, the error.
pub fn check_logit_slots(k: usize, n_slots: usize) -> (r: Result<(), String>)
    ensures
        k <= n_slots ==> r is Ok,
        k > n_slots ==> (r matches Err(m) && m@ == decimal(k as nat) + " options exceeds the "@
            + decimal(n_slots as nat) + "-slot logits tensor"@),
{
    if k <= n_slots {
        return Ok(());
    }
    let mut m = decimal_chars(k);
    extend_chars(&mut m, &chars_of(" options exceeds the "));
    extend_chars(&mut m, &decimal_chars(n_slots));
    extend_chars(&mut m, &chars_of("-slot logits tensor"));
    Err(string_of(&m))
}


/// Whether a bucket label's range holds `k`: `N` holds up to `N` options, `A-B` from `A`
/// to `B`, and `N+` from `N` on, the numbers written in decimal.
pub open spec fn label_holds(label: Seq<char>, k: int) -> bool {
    ||| exists|n: nat| label == decimal(n) && k <= n
    ||| exists|a: nat, b: nat| label == decimal(a) + "-"@ + decimal(b) && a <= k <= b
    ||| exists|n: nat| label == decimal(n) + "+"@ && n <= k
}

/// The temperature of a question with `k` options is looked up under the key of a size
/// bucket whose label's range holds `k` (e.g. 4 options read `"<qtype>:3-5"`).
pub proof fn law_temperature_bucket_holds_the_option_count(qtype_name: Seq<char>, k: usize)
    ensures
        exists|label: Seq<char>|
            temperature_key(qtype_name, k) == "\""@ + qtype_name + ":"@ + label + "\":"@
                && label_holds(label, k as int),
{
    reveal_strlit("2");
    reveal_strlit("3-5");
    reveal_strlit("6-10");
    reveal_strlit("11+");
    reveal_strlit("-");
    reveal_strlit("+");
    let label = size_bucket(k);
    assert(decimal(2) =~= seq!['2']);
    assert(decimal(3) =~= seq!['3']);
    assert(decimal(5) =~= seq!['5']);
    assert(decimal(6) =~= seq!['6']);
    assert(decimal(1) =~= seq!['1']);
    assert(decimal(0) =~= seq!['0']);
    assert(decimal(10) =~= seq!['1', '0']);
    assert(decimal(11) =~= seq!['1', '1']);
    if k <= 2 {
        assert(label == decimal(2));
    } else if k <= 5 {
        assert(label =~= decimal(3) + "-"@ + decimal(5));
    } else if k <= 10 {
        assert(label =~= decimal(6) + "-"@ + decimal(10));
    } else {
        assert(label =~= decimal(11) + "+"@);
    }
    assert(label_holds(label, k as int));
}

} // verus!
