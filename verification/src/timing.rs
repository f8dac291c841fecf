//! Per-stage wall-clock timings and the bookkeeping of fine-grained performance spans.
use vstd::prelude::*;
use crate::text::{chars_of, vec_chars_eq};
use std::time::Instant;

verus! {

/// Wall-clock milliseconds of each benchmark stage.
#[derive(Clone, Copy, Debug)]
pub struct Timings {
    pub model_load_ms: u128,
    pub warmup_ms: u128,
    pub tokenize_ms: u128,
    pub constrained_readout_ms: u128,
    pub generation_ms: u128,
    pub laya_model_load_ms: u128,
    pub laya_inference_ms: u128,
}

impl Default for Timings {
    /// All stages at zero.
    fn default() -> (r: Self)
        ensures
            r.model_load_ms == 0,
            r.warmup_ms == 0,
            r.tokenize_ms == 0,
            r.constrained_readout_ms == 0,
            r.generation_ms == 0,
            r.laya_model_load_ms == 0,
            r.laya_inference_ms == 0,
    {
        Timings {
            model_load_ms: 0,
            warmup_ms: 0,
            tokenize_ms: 0,
            constrained_readout_ms: 0,
            generation_ms: 0,
            laya_model_load_ms: 0,
            laya_inference_ms: 0,
        }
    }
}

/// `std::time::Instant`, carried through as an opaque value.
#[verifier::external_type_specification]
#[verifier::external_body]
pub struct ExInstant(Instant);

/// `Instant::now`. Nothing is claimed of the returned instant.
#[verifier::external_body]
fn instant_now() -> Instant {
    Instant::now()
}

/// The metadata of a span as character sequences.
pub open spec fn metadata_view(m: Seq<(&'static str, String)>) -> Seq<(Seq<char>, Seq<char>)> {
    m.map_values(|e: (&'static str, String)| (e.0@, e.1@))
}

/// The index of the entry keyed `k`, or `-1`.
pub open spec fn key_index(m: Seq<(Seq<char>, Seq<char>)>, k: Seq<char>) -> int
    decreases m.len(),
{
    if m.len() == 0 {
        -1
    } else if m.last().0 == k {
        m.len() - 1
    } else {
        key_index(m.drop_last(), k)
    }
}

/// No two entries share a key.
pub open spec fn keys_distinct(m: Seq<(Seq<char>, Seq<char>)>) -> bool {
    forall|i: int, j: int| 0 <= i < j < m.len() ==> m[i].0 != m[j].0
}

/// A performance span: a name, a start instant when recording, and key/value metadata
/// with at most one value per key. Finishing a span hands its record to the logger.
pub struct PerfSpan {
    name: &'static str,
    start: Option<Instant>,
    metadata: Vec<(&'static str, String)>,
}

/// What a finished span hands to the logger: its name, start instant and metadata.
pub struct FinishedSpan {
    pub name: &'static str,
    pub start: Instant,
    pub metadata: Vec<(&'static str, String)>,
}

proof fn lemma_key_index(m: Seq<(Seq<char>, Seq<char>)>, k: Seq<char>, n: int)
    requires
        0 <= n <= m.len(),
        forall|j: int| n <= j < m.len() ==> m[j].0 != k,
    ensures
        n == 0 ==> key_index(m, k) == -1,
        n > 0 && m[n - 1].0 == k ==> key_index(m, k) == n - 1,
    decreases m.len() - n,
{
    if n < m.len() {
        let d = m.drop_last();
        assert forall|j: int| n <= j < d.len() implies d[j].0 != k by {
            assert(d[j] == m[j]);
        }
        lemma_key_index(d, k, n);
        if n > 0 {
            assert(d[n - 1] == m[n - 1]);
        }
    }
}

impl PerfSpan {
    #[verifier::type_invariant]
    closed spec fn wf(self) -> bool {
        keys_distinct(metadata_view(self.metadata@))
    }

    /// The span's name.
    pub closed spec fn span_name(self) -> &'static str {
        self.name
    }

    /// Whether the span records (it does exactly when logging was enabled at its start).
    pub closed spec fn recording(self) -> bool {
        self.start is Some
    }

    /// The instant the span started at, when it records.
    pub closed spec fn started_at(self) -> Option<Instant> {
        self.start
    }

    /// The span's metadata entries, in the order their keys were first set.
    pub closed spec fn entries(self) -> Seq<(Seq<char>, Seq<char>)> {
        metadata_view(self.metadata@)
    }

    /// Starts a span named `name`. It records, and takes the current instant, exactly when
    /// `enabled` (performance logging is on); otherwise it costs nothing more.
    pub fn start(name: &'static str, enabled: bool) -> (r: Self)
        ensures
            r.span_name() == name,
            r.recording() == enabled,
            r.started_at() is Some == enabled,
            r.entries() == Seq::<(Seq<char>, Seq<char>)>::empty(),
    {
        let metadata: Vec<(&'static str, String)> = Vec::new();
        assert(metadata_view(metadata@) =~= Seq::<(Seq<char>, Seq<char>)>::empty());
        if !enabled {
            return PerfSpan { name, start: None, metadata };
        }
        PerfSpan { name, start: Some(instant_now()), metadata }
    }

    /// Attaches `key = value` to a recording span, replacing an earlier value of the same
    /// key; a no-op when the span does not record.
    pub fn set(&mut self, key: &'static str, value: String) -> (r: &mut Self)
        ensures
            *final(self) == *final(r),
            (*r).span_name() == old(self).span_name(),
            (*r).recording() == old(self).recording(),
            (*r).started_at() == old(self).started_at(),
            !old(self).recording() ==> (*r).entries() == old(self).entries(),
            old(self).recording() && key_index(old(self).entries(), key@) >= 0 ==> (*r).entries() == old(self).entries().update(
                key_index(old(self).entries(), key@),
                (key@, value@),
            ),
            old(self).recording() && key_index(old(self).entries(), key@) < 0 ==> (*r).entries() == old(self).entries().push((key@, value@)),
    {
        proof {
            use_type_invariant(&*self);
        }
        if self.start.is_none() {
            return self;
        }
        let ghost m = metadata_view(self.metadata@);
        let k = chars_of(key);
        let mut n: usize = self.metadata.len();
        while n > 0
            invariant
                n <= self.metadata@.len(),
                m == metadata_view(self.metadata@),
                *self == *old(self),
                self.start is Some,
                keys_distinct(m),
                k@ == key@,
                forall|j: int| n <= j < m.len() ==> m[j].0 != key@,
            decreases n,
        {
            let existing = chars_of(self.metadata[n - 1].0);
            if vec_chars_eq(&existing, &k) {
                proof {
                    lemma_key_index(m, key@, n as int);
                }
                let mut md: Vec<(&'static str, String)> = Vec::new();
                std::mem::swap(&mut md, &mut self.metadata);
                md.set(n - 1, (key, value));
                assert(metadata_view(md@) =~= m.update(n - 1, (key@, value@)));
                assert forall|i: int, j: int|
                    0 <= i < j < md@.len() implies metadata_view(md@)[i].0 != metadata_view(
                    md@,
                )[j].0 by {
                    assert(m[i].0 != m[j].0);
                }
                self.metadata = md;
                return self;
            }
            n = n - 1;
        }
        proof {
            lemma_key_index(m, key@, 0);
        }
        let mut md: Vec<(&'static str, String)> = Vec::new();
        std::mem::swap(&mut md, &mut self.metadata);
        md.push((key, value));
        assert(metadata_view(md@) =~= m.push((key@, value@)));
        self.metadata = md;
        self
    }

    /// Ends a recording span: hands back its name, start instant and metadata, leaving the
    /// span not recording and without metadata, so a span is logged at most once. A span
    /// that does not record gives nothing.
    pub fn finish(&mut self) -> (r: Option<FinishedSpan>)
        ensures
            r is Some == old(self).recording(),
            r matches Some(f) ==> f.name == old(self).span_name() && metadata_view(f.metadata@)
                == old(self).entries() && old(self).started_at() == Some(f.start),
            !final(self).recording(),
            final(self).span_name() == old(self).span_name(),
            final(self).entries() == Seq::<(Seq<char>, Seq<char>)>::empty(),
    {
        let mut md: Vec<(&'static str, String)> = Vec::new();
        std::mem::swap(&mut md, &mut self.metadata);
        assert(metadata_view(self.metadata@) =~= Seq::<(Seq<char>, Seq<char>)>::empty());
        let mut st: Option<Instant> = None;
        std::mem::swap(&mut st, &mut self.start);
        match st {
            Some(st) => Some(FinishedSpan { name: self.name, start: st, metadata: md }),
            None => None,
        }
    }
}


/// A perf record's timestamp in microseconds, from a wall-clock reading given as whole
/// seconds and sub-second nanoseconds since the Unix epoch; `0` for a clock set before the
/// epoch (`None`).
pub fn epoch_micros(since_epoch: Option<(u64, u32)>) -> (r: u128)
    requires
        since_epoch matches Some(d) ==> d.1 < 1_000_000_000,
    ensures
        r == match since_epoch {
            Some(d) => d.0 * 1_000_000 + d.1 / 1000,
            None => 0,
        },
{
    match since_epoch {
        Some((secs, nanos)) => {
            assert(secs * 1_000_000 <= 18446744073709551615u128 * 1_000_000) by (nonlinear_arith);
            (secs as u128) * 1_000_000 + (nanos / 1000) as u128
        },
        None => 0,
    }
}

} // verus!
