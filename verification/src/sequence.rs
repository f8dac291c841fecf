//! The Laya input sequence: option rendering and the token layout
//! `[CLS] <type> question: <ins> [SEP] [MASK] opt0 [MASK] opt1 ... [SEP] state [SEP]`.
use vstd::prelude::*;
use crate::text::{
    chars_of, decimal, decimal_chars, extend_chars, replace_all, replace_chars, string_of,
    vec_chars_eq, views_of,
};
use crate::tokenizer::{encode_spec, Bpe, BpeModel};

verus! {

/// The kind of question the decision head answers.
#[derive(Clone, Copy, PartialEq, Eq, Debug, Structural)]
pub enum QType {
    Choice,
    Score,
    Noul,
}

/// The name of a question type, as it appears in the sequence text.
pub open spec fn qtype_name(t: QType) -> Seq<char> {
    match t {
        QType::Choice => "choice"@,
        QType::Score => "score"@,
        QType::Noul => "noul"@,
    }
}

impl QType {
    /// The name of the question type: `choice`, `score` or `noul`.
    pub fn name(self) -> (r: &'static str)
        ensures
            r@ == qtype_name(self),
    {
        match self {
            QType::Choice => "choice",
            QType::Score => "score",
            QType::Noul => "noul",
        }
    }
}

/// A question: its type, its instructions and its criteria in label-index order, each a
/// label with an optional description.
pub struct Question {
    pub qtype: QType,
    pub instructions: String,
    pub criteria: Vec<(String, Option<String>)>,
}

/// A criterion as character sequences.
pub open spec fn criterion_view(c: (String, Option<String>)) -> (Seq<char>, Option<Seq<char>>) {
    (
        c.0@,
        match c.1 {
            Some(d) => Some(d@),
            None => None,
        },
    )
}

/// The criteria as character sequences.
pub open spec fn criteria_view(cs: Seq<(String, Option<String>)>) -> Seq<
    (Seq<char>, Option<Seq<char>>),
> {
    cs.map_values(|c: (String, Option<String>)| criterion_view(c))
}

/// A description, or the empty text when there is none.
pub open spec fn description_or_empty(d: Option<Seq<char>>) -> Seq<char> {
    match d {
        Some(t) => t,
        None => Seq::empty(),
    }
}

/// A choice option: `label: description` when the description is non-empty, else the label.
pub open spec fn render_choice(c: (Seq<char>, Option<Seq<char>>)) -> Seq<char> {
    if c.1 is Some && c.1->0.len() > 0 {
        c.0 + ": "@ + c.1->0
    } else {
        c.0
    }
}

/// A score option: `level <i>: <description>`.
pub open spec fn render_level(i: int, c: (Seq<char>, Option<Seq<char>>)) -> Seq<char> {
    "level "@ + decimal(i as nat) + ": "@ + description_or_empty(c.1)
}

/// The index of the first criterion labelled `name`, or `-1`.
pub open spec fn first_labelled(cs: Seq<(Seq<char>, Option<Seq<char>>)>, name: Seq<char>) -> int
    decreases cs.len(),
{
    if cs.len() == 0 {
        -1
    } else if cs[0].0 == name {
        0
    } else if first_labelled(cs.drop_first(), name) < 0 {
        -1
    } else {
        1 + first_labelled(cs.drop_first(), name)
    }
}

/// The description of the first criterion labelled `name` when it is present and
/// non-empty, else `dflt`.
pub open spec fn labelled_or(
    cs: Seq<(Seq<char>, Option<Seq<char>>)>,
    name: Seq<char>,
    dflt: Seq<char>,
) -> Seq<char> {
    let i = first_labelled(cs, name);
    if i >= 0 && cs[i].1 is Some && cs[i].1->0.len() > 0 {
        cs[i].1->0
    } else {
        dflt
    }
}

/// The option texts of a question, in label-index order.
pub open spec fn render_options_spec(t: QType, cs: Seq<(Seq<char>, Option<Seq<char>>)>) -> Seq<
    Seq<char>,
> {
    match t {
        QType::Choice => cs.map_values(|c: (Seq<char>, Option<Seq<char>>)| render_choice(c)),
        QType::Score => Seq::new(cs.len(), |i: int| render_level(i, cs[i])),
        QType::Noul => seq![
            "false: "@ + labelled_or(cs, "false"@, "no, the statement does not hold"@),
            "true: "@ + labelled_or(cs, "true"@, "yes, the statement holds"@),
        ],
    }
}

proof fn lemma_first_labelled(cs: Seq<(Seq<char>, Option<Seq<char>>)>, name: Seq<char>, k: int)
    requires
        0 <= k <= cs.len(),
        forall|i: int| 0 <= i < k ==> cs[i].0 != name,
    ensures
        k == cs.len() ==> first_labelled(cs, name) == -1,
        k < cs.len() && cs[k].0 == name ==> first_labelled(cs, name) == k,
    decreases k,
{
    if k > 0 {
        let t = cs.drop_first();
        assert forall|i: int| 0 <= i < k - 1 implies t[i].0 != name by {
            assert(t[i] == cs[i + 1]);
        }
        lemma_first_labelled(t, name, k - 1);
    }
}

/// The description of the first criterion labelled `name` when present and non-empty,
/// else `dflt`.
fn labelled_or_exec(cs: &Vec<(String, Option<String>)>, name: &str, dflt: &str) -> (r: Vec<char>)
    ensures
        r@ == labelled_or(criteria_view(cs@), name@, dflt@),
{
    let ghost v = criteria_view(cs@);
    let nm = chars_of(name);
    let mut i: usize = 0;
    while i < cs.len()
        invariant
            i <= cs@.len(),
            v == criteria_view(cs@),
            nm@ == name@,
            forall|j: int| 0 <= j < i ==> v[j].0 != name@,
        decreases cs@.len() - i,
    {
        let label = chars_of(cs[i].0.as_str());
        assert(v[i as int].0 == cs@[i as int].0@);
        if vec_chars_eq(&label, &nm) {
            proof {
                lemma_first_labelled(v, name@, i as int);
            }
            match &cs[i].1 {
                Some(d) => {
                    if !d.as_str().is_empty() {
                        return chars_of(d.as_str());
                    }
                },
                None => {},
            }
            return chars_of(dflt);
        }
        i = i + 1;
    }
    proof {
        lemma_first_labelled(v, name@, i as int);
    }
    chars_of(dflt)
}

/// `render_options`: the option texts of `q`, in label-index order. Choice options are
/// `label: description` (or the bare label), score options are `level <i>: <description>`,
/// and a yes/no question has exactly the two options `false: ...` and `true: ...`, taken
/// from the criteria labelled `false` and `true` or else from the default wording.
pub fn render_options(q: &Question) -> (r: Vec<String>)
    ensures
        views_of(r@) == render_options_spec(q.qtype, criteria_view(q.criteria@)),
{
    let ghost cs = criteria_view(q.criteria@);
    match q.qtype {
        QType::Noul => {
            let mut f = chars_of("false: ");
            extend_chars(&mut f, &labelled_or_exec(&q.criteria, "false", "no, the statement does not hold"));
            let mut t = chars_of("true: ");
            extend_chars(&mut t, &labelled_or_exec(&q.criteria, "true", "yes, the statement holds"));
            let mut out: Vec<String> = Vec::new();
            out.push(string_of(&f));
            out.push(string_of(&t));
            assert(views_of(out@) =~= render_options_spec(q.qtype, cs));
            out
        },
        _ => {
            let mut out: Vec<String> = Vec::new();
            let mut i: usize = 0;
            while i < q.criteria.len()
                invariant
                    i <= q.criteria@.len(),
                    q.qtype != QType::Noul,
                    cs == criteria_view(q.criteria@),
                    views_of(out@) == render_options_spec(q.qtype, cs).take(i as int),
                decreases q.criteria@.len() - i,
            {
                let ghost c = cs[i as int];
                assert(c == criterion_view(q.criteria@[i as int]));
                let mut v: Vec<char>;
                match q.qtype {
                    QType::Choice => {
                        v = chars_of(q.criteria[i].0.as_str());
                        match &q.criteria[i].1 {
                            Some(d) => {
                                if !d.as_str().is_empty() {
                                    extend_chars(&mut v, &chars_of(": "));
                                    extend_chars(&mut v, &chars_of(d.as_str()));
                                }
                            },
                            None => {},
                        }
                        assert(v@ == render_choice(c));
                    },
                    _ => {
                        v = chars_of("level ");
                        extend_chars(&mut v, &decimal_chars(i));
                        extend_chars(&mut v, &chars_of(": "));
                        match &q.criteria[i].1 {
                            Some(d) => {
                                extend_chars(&mut v, &chars_of(d.as_str()));
                            },
                            None => {},
                        }
                        assert(v@ =~= render_level(i as int, c));
                    },
                }
                let ghost before = out@;
                out.push(string_of(&v));
                assert(views_of(out@) =~= views_of(before).push(v@));
                assert(views_of(out@) =~= render_options_spec(q.qtype, cs).take(i + 1));
                i = i + 1;
            }
            assert(render_options_spec(q.qtype, cs).take(q.criteria@.len() as int)
                =~= render_options_spec(q.qtype, cs));
            out
        },
    }
}

/// A multiple-choice question with `options` as its labels, none described.
pub fn choice_question(instructions: &str, options: &[String]) -> (r: Question)
    ensures
        r.qtype == QType::Choice,
        r.instructions@ == instructions@,
        criteria_view(r.criteria@) == views_of(options@).map_values(
            |o: Seq<char>| (o, None::<Seq<char>>),
        ),
{
    let mut criteria: Vec<(String, Option<String>)> = Vec::new();
    let mut i: usize = 0;
    while i < options.len()
        invariant
            i <= options@.len(),
            criteria@.len() == i,
            criteria_view(criteria@) == views_of(options@).map_values(
                |o: Seq<char>| (o, None::<Seq<char>>),
            ).take(i as int),
        decreases options@.len() - i,
    {
        let ghost before = criteria@;
        let o = options[i].clone();
        criteria.push((o, None));
        assert forall|j: int| 0 <= j < i + 1 implies #[trigger] criteria_view(criteria@)[j]
            == views_of(options@).map_values(|o: Seq<char>| (o, None::<Seq<char>>)).take(i + 1)[j] by {
            if j < i {
                assert(criteria@[j] == before[j]);
                assert(criteria_view(before)[j] == views_of(options@).map_values(
                    |o: Seq<char>| (o, None::<Seq<char>>),
                ).take(i as int)[j]);
            }
        }
        assert(criteria_view(criteria@) =~= views_of(options@).map_values(
            |o: Seq<char>| (o, None::<Seq<char>>),
        ).take(i + 1));
        i = i + 1;
    }
    assert(views_of(options@).map_values(|o: Seq<char>| (o, None::<Seq<char>>)).take(
        options@.len() as int,
    ) =~= views_of(options@).map_values(|o: Seq<char>| (o, None::<Seq<char>>)));
    Question { qtype: QType::Choice, instructions: String::from_str(instructions), criteria }
}

/// The mask marker `[MASK]`, which never stays in question or option text.
pub open spec fn mask_token() -> Seq<char> {
    seq!['[', 'M', 'A', 'S', 'K', ']']
}

/// `t` with every `[MASK]` replaced by a space.
pub open spec fn unmask(t: Seq<char>) -> Seq<char> {
    replace_all(t, mask_token(), seq![' '])
}

/// The first `n` elements of `s`, or all of `s` if it is shorter (`Vec::truncate`).
pub open spec fn keep_at_most<T>(s: Seq<T>, n: int) -> Seq<T> {
    if n < s.len() {
        s.take(n)
    } else {
        s
    }
}

/// The ids of one option: its `[MASK]` marker, then at most 48 ids of ` <option text>`.
pub open spec fn option_ids(tok: BpeModel, mask: i32, o: Seq<char>) -> Seq<i32> {
    seq![mask] + keep_at_most(encode_spec(tok, seq![' '] + unmask(o)), 48)
}

/// The total number of ids in `os`.
pub open spec fn total_len(os: Seq<Seq<i32>>) -> int
    decreases os.len(),
{
    if os.len() == 0 {
        0
    } else {
        total_len(os.drop_last()) + os.last().len()
    }
}

/// The options fitted to the head budget: when fewer than 16 of `head_max_len` positions
/// would be left after the options, each option is cut to
/// `max(4, (head_max_len - 16) / max(1, number of options))` ids.
pub open spec fn fit_options(os: Seq<Seq<i32>>, head_max_len: int) -> Seq<Seq<i32>> {
    if head_max_len - total_len(os) < 16 {
        let per = vstd::math::max(4, (head_max_len - 16) / vstd::math::max(1, os.len() as int));
        os.map_values(|o: Seq<i32>| keep_at_most(o, per))
    } else {
        os
    }
}

/// How many head ids are kept: what the fitted options leave of `head_max_len`, but at
/// least 8.
pub open spec fn head_room(fitted: Seq<Seq<i32>>, head_max_len: int) -> int {
    vstd::math::max(8, vstd::math::max(0, head_max_len - total_len(fitted)))
}

/// The ids of the question head: `<type> question: <instructions>`, kept to the head room.
pub open spec fn head_ids(
    tok: BpeModel,
    t: QType,
    instructions: Seq<char>,
    fitted: Seq<Seq<i32>>,
    head_max_len: int,
) -> Seq<i32> {
    keep_at_most(
        encode_spec(tok, qtype_name(t) + " question: "@ + unmask(instructions)),
        head_room(fitted, head_max_len),
    )
}

/// The fitted option ids of a question.
pub open spec fn fitted_options(
    tok: BpeModel,
    mask: i32,
    t: QType,
    cs: Seq<(Seq<char>, Option<Seq<char>>)>,
    head_max_len: int,
) -> Seq<Seq<i32>> {
    let opts = render_options_spec(t, cs);
    fit_options(Seq::new(opts.len(), |k: int| option_ids(tok, mask, opts[k])), head_max_len)
}

/// `[CLS] head [SEP] options [SEP]`.
pub open spec fn sequence_prefix(sp: SpecialIds, head: Seq<i32>, os: Seq<Seq<i32>>) -> Seq<i32> {
    seq![sp.cls] + head + seq![sp.sep] + os.flatten_alt() + seq![sp.sep]
}

/// The markers below `lim`, in order.
pub open spec fn keep_below(ms: Seq<i32>, lim: i32) -> Seq<i32>
    decreases ms.len(),
{
    if ms.len() == 0 {
        Seq::empty()
    } else if ms.last() < lim {
        keep_below(ms.drop_last(), lim).push(ms.last())
    } else {
        keep_below(ms.drop_last(), lim)
    }
}

/// Where each option's `[MASK]` marker lands: after `[CLS]`, the head and `[SEP]`, past the
/// options before it.
pub open spec fn marker_positions(head_len: int, os: Seq<Seq<i32>>) -> Seq<i32> {
    Seq::new(os.len(), |k: int| (head_len + 2 + total_len(os.take(k))) as i32)
}

/// The ids `build_sequence` produces.
pub open spec fn sequence_ids(
    tok: BpeModel,
    sp: SpecialIds,
    state: Seq<char>,
    t: QType,
    instructions: Seq<char>,
    cs: Seq<(Seq<char>, Option<Seq<char>>)>,
    max_len: int,
    head_max_len: int,
) -> Seq<i32> {
    let os = fitted_options(tok, sp.mask, t, cs, head_max_len);
    let prefix = sequence_prefix(sp, head_ids(tok, t, instructions, os, head_max_len), os);
    let room = vstd::math::max(0, max_len - prefix.len() - 1);
    keep_at_most(
        prefix + keep_at_most(encode_spec(tok, unmask(state)), room) + seq![sp.sep],
        max_len,
    )
}

/// The markers `build_sequence` produces.
pub open spec fn sequence_markers(
    tok: BpeModel,
    sp: SpecialIds,
    t: QType,
    instructions: Seq<char>,
    cs: Seq<(Seq<char>, Option<Seq<char>>)>,
    max_len: int,
    head_max_len: int,
) -> Seq<i32> {
    let os = fitted_options(tok, sp.mask, t, cs, head_max_len);
    let head = head_ids(tok, t, instructions, os, head_max_len);
    keep_below(marker_positions(head.len() as int, os), max_len as i32)
}

/// A built sequence: the token ids and the index of each option's `[MASK]` marker in them.
pub struct BuiltSequence {
    pub ids: Vec<i32>,
    pub markers: Vec<i32>,
}

/// The special token ids the sequence layout uses.
pub struct SpecialIds {
    pub cls: i32,
    pub sep: i32,
    pub mask: i32,
}

fn mask_chars() -> (r: Vec<char>)
    ensures
        r@ == mask_token(),
{
    let r = vec!['[', 'M', 'A', 'S', 'K', ']'];
    assert(r@ =~= mask_token());
    r
}

/// `t` with every `[MASK]` replaced by a space.
fn unmask_exec(t: &str) -> (r: Vec<char>)
    ensures
        r@ == unmask(t@),
{
    let mut sp: Vec<char> = Vec::new();
    sp.push(' ');
    assert(sp@ =~= seq![' ']);
    replace_chars(&chars_of(t), &mask_chars(), &sp)
}

/// Appends the ids of `t` to `v`.
fn extend_ids(v: &mut Vec<i32>, t: &Vec<i32>)
    ensures
        final(v)@ == old(v)@ + t@,
{
    let mut i: usize = 0;
    while i < t.len()
        invariant
            i <= t@.len(),
            v@ == old(v)@ + t@.take(i as int),
        decreases t@.len() - i,
    {
        v.push(t[i]);
        assert(t@.take(i + 1) =~= t@.take(i as int).push(t@[i as int]));
        i = i + 1;
    }
    assert(t@.take(t@.len() as int) =~= t@);
}

/// The total number of ids in `os`.
fn total_len_exec(os: &Vec<Vec<i32>>) -> (r: u128)
    ensures
        r as int == total_len(deep_ids(os@)),
{
    let mut t: u128 = 0;
    let mut i: usize = 0;
    while i < os.len()
        invariant
            i <= os@.len(),
            t as int == total_len(deep_ids(os@.take(i as int))),
            t <= i * 0x1_0000_0000_0000_0000,
        decreases os@.len() - i,
    {
        proof {
            let cur = deep_ids(os@.take(i + 1));
            assert(cur.drop_last() =~= deep_ids(os@.take(i as int)));
            assert(os@[i as int]@.len() == os@[i as int].len());
            assert((i + 1) * 0x1_0000_0000_0000_0000 == i * 0x1_0000_0000_0000_0000 + 0x1_0000_0000_0000_0000) by (nonlinear_arith);
            assert(i * 0x1_0000_0000_0000_0000 <= 0xFFFF_FFFF_FFFF_FFFF * 0x1_0000_0000_0000_0000) by (nonlinear_arith)
                requires i <= 0xFFFF_FFFF_FFFF_FFFF;
        }
        let l = os[i].len();
        t = t + l as u128;
        i = i + 1;
    }
    assert(os@.take(os@.len() as int) =~= os@);
    t
}

/// The id sequences held by a list of id vectors.
pub open spec fn deep_ids(os: Seq<Vec<i32>>) -> Seq<Seq<i32>> {
    os.map_values(|v: Vec<i32>| v@)
}

/// The unfitted option ids of the option texts `opts`.
fn option_id_lists(tok: &Bpe, mask: i32, opts: &Vec<String>) -> (r: Vec<Vec<i32>>)
    ensures
        deep_ids(r@) == Seq::new(
            views_of(opts@).len(),
            |k: int| option_ids(tok@, mask, views_of(opts@)[k]),
        ),
{
    let ghost ov = views_of(opts@);
    let ghost raw = Seq::new(ov.len(), |k: int| option_ids(tok@, mask, ov[k]));
    let mut opt_ids: Vec<Vec<i32>> = Vec::new();
    let mut i: usize = 0;
    while i < opts.len()
        invariant
            i <= opts@.len(),
            ov == views_of(opts@),
            raw == Seq::new(ov.len(), |k: int| option_ids(tok@, mask, ov[k])),
            opt_ids@.len() == i,
            deep_ids(opt_ids@) == raw.take(i as int),
        decreases opts@.len() - i,
    {
        let mut v: Vec<i32> = Vec::new();
        v.push(mask);
        let mut text: Vec<char> = Vec::new();
        text.push(' ');
        extend_chars(&mut text, &unmask_exec(opts[i].as_str()));
        assert(text@ =~= seq![' '] + unmask(ov[i as int]));
        let mut body = tok.encode(string_of(&text).as_str());
        body.truncate(48);
        extend_ids(&mut v, &body);
        assert(v@ =~= option_ids(tok@, mask, ov[i as int]));
        let ghost before = opt_ids@;
        opt_ids.push(v);
        assert forall|j: int| 0 <= j < i + 1 implies #[trigger] deep_ids(opt_ids@)[j] == raw.take(
            i + 1,
        )[j] by {
            if j < i {
                assert(opt_ids@[j] == before[j]);
                assert(deep_ids(before)[j] == raw.take(i as int)[j]);
            }
        }
        assert(deep_ids(opt_ids@) =~= raw.take(i + 1));
        i = i + 1;
    }
    assert(raw.take(opts@.len() as int) =~= raw);
    opt_ids
}

/// Each id list of `os` cut to at most `per` ids.
fn cut_each(os: &Vec<Vec<i32>>, per: usize) -> (r: Vec<Vec<i32>>)
    ensures
        deep_ids(r@) == deep_ids(os@).map_values(|o: Seq<i32>| keep_at_most(o, per as int)),
{
    let ghost target = deep_ids(os@).map_values(|o: Seq<i32>| keep_at_most(o, per as int));
    let mut out: Vec<Vec<i32>> = Vec::new();
    let mut j: usize = 0;
    while j < os.len()
        invariant
            j <= os@.len(),
            out@.len() == j,
            target == deep_ids(os@).map_values(|o: Seq<i32>| keep_at_most(o, per as int)),
            deep_ids(out@) == target.take(j as int),
        decreases os@.len() - j,
    {
        let mut o: Vec<i32> = Vec::new();
        extend_ids(&mut o, &os[j]);
        assert(o@ =~= os@[j as int]@);
        o.truncate(per);
        let ghost before = out@;
        out.push(o);
        assert forall|t: int| 0 <= t < j + 1 implies #[trigger] deep_ids(out@)[t] == target.take(
            j + 1,
        )[t] by {
            if t < j {
                assert(out@[t] == before[t]);
                assert(deep_ids(before)[t] == target.take(j as int)[t]);
            }
        }
        assert(deep_ids(out@) =~= target.take(j + 1));
        j = j + 1;
    }
    assert(target.take(os@.len() as int) =~= target);
    out
}

/// The option ids fitted to the head budget.
fn fit_option_ids(opt_ids: Vec<Vec<i32>>, head_max_len: usize) -> (r: Vec<Vec<i32>>)
    requires
        head_max_len >= 16,
    ensures
        deep_ids(r@) == fit_options(deep_ids(opt_ids@), head_max_len as int),
{
    let total = total_len_exec(&opt_ids);
    let k = opt_ids.len();
    if total > (head_max_len - 16) as u128 {
        let div = if k > 1 {
            k
        } else {
            1
        };
        let q16 = (head_max_len - 16) / div;
        let per = if q16 > 4 {
            q16
        } else {
            4
        };
        cut_each(&opt_ids, per)
    } else {
        opt_ids
    }
}

/// `[CLS] head [SEP] options [SEP]`, with the index of each option's first id.
fn assemble_prefix(sp: &SpecialIds, head: &Vec<i32>, os: &Vec<Vec<i32>>) -> (r: (
    Vec<i32>,
    Vec<i32>,
))
    ensures
        r.0@ == sequence_prefix(*sp, head@, deep_ids(os@)),
        r.1@ == marker_positions(head@.len() as int, deep_ids(os@)),
{
    let ghost d = deep_ids(os@);
    let k = os.len();
    let mut ids: Vec<i32> = Vec::new();
    ids.push(sp.cls);
    extend_ids(&mut ids, head);
    ids.push(sp.sep);
    let mut markers: Vec<i32> = Vec::new();
    let mut t: usize = 0;
    assert(d.take(0).flatten_alt() =~= Seq::<i32>::empty());
    assert(ids@ =~= seq![sp.cls] + head@ + seq![sp.sep] + d.take(0).flatten_alt());
    assert(markers@ =~= marker_positions(head@.len() as int, d).take(0));
    while t < k
        invariant
            t <= k,
            k == os@.len(),
            d == deep_ids(os@),
            ids@ == seq![sp.cls] + head@ + seq![sp.sep] + d.take(t as int).flatten_alt(),
            markers@ == marker_positions(head@.len() as int, d).take(t as int),
        decreases k - t,
    {
        proof {
            lemma_flatten_alt_len(d.take(t as int));
        }
        markers.push(ids.len() as i32);
        extend_ids(&mut ids, &os[t]);
        proof {
            assert(d.take(t + 1).drop_last() =~= d.take(t as int));
            assert(d.take(t + 1).last() == os@[t as int]@);
            assert(markers@ =~= marker_positions(head@.len() as int, d).take(t + 1));
        }
        t = t + 1;
    }
    assert(d.take(k as int) =~= d);
    ids.push(sp.sep);
    (ids, markers)
}

/// The markers of `ms` below `lim`, in order.
fn markers_below(ms: &Vec<i32>, lim: i32) -> (r: Vec<i32>)
    ensures
        r@ == keep_below(ms@, lim),
{
    let mut kept: Vec<i32> = Vec::new();
    let mut m: usize = 0;
    while m < ms.len()
        invariant
            m <= ms@.len(),
            kept@ == keep_below(ms@.take(m as int), lim),
        decreases ms@.len() - m,
    {
        assert(ms@.take(m + 1).drop_last() =~= ms@.take(m as int));
        if ms[m] < lim {
            kept.push(ms[m]);
        }
        m = m + 1;
    }
    assert(ms@.take(ms@.len() as int) =~= ms@);
    kept
}

/// Builds the Laya input sequence for `q` over the prompt text `state`:
/// `[CLS] <type> question: <instructions> [SEP] [MASK] opt0 [MASK] opt1 ... [SEP] state [SEP]`,
/// with `[MASK]` removed from all text, each option body cut to 48 ids, options cut further
/// when they would leave the head fewer than 16 of `head_max_len` positions, the head kept
/// to what the options leave (at least 8 ids), the state kept to what fits in `max_len`,
/// and the whole cut to `max_len`; `markers` holds the index of each option's `[MASK]` that
/// lies below `max_len`.
pub fn build_sequence(
    tok: &Bpe,
    sp: &SpecialIds,
    state: &str,
    q: &Question,
    max_len: usize,
    head_max_len: usize,
) -> (r: BuiltSequence)
    requires
        head_max_len >= 16,
    ensures
        r.ids@ == sequence_ids(
            tok@,
            *sp,
            state@,
            q.qtype,
            q.instructions@,
            criteria_view(q.criteria@),
            max_len as int,
            head_max_len as int,
        ),
        r.markers@ == sequence_markers(
            tok@,
            *sp,
            q.qtype,
            q.instructions@,
            criteria_view(q.criteria@),
            max_len as int,
            head_max_len as int,
        ),
{
    let opts = render_options(q);
    let raw = option_id_lists(tok, sp.mask, &opts);
    let opt_ids = fit_option_ids(raw, head_max_len);
    let ghost os = deep_ids(opt_ids@);
    assert(os == fitted_options(
        tok@,
        sp.mask,
        q.qtype,
        criteria_view(q.criteria@),
        head_max_len as int,
    ));
    let total2 = total_len_exec(&opt_ids);
    let keep: usize = if total2 >= (head_max_len - 8) as u128 {
        8
    } else {
        (head_max_len as u128 - total2) as usize
    };
    assert(keep as int == head_room(os, head_max_len as int));
    let mut head_text = chars_of(q.qtype.name());
    extend_chars(&mut head_text, &chars_of(" question: "));
    extend_chars(&mut head_text, &unmask_exec(q.instructions.as_str()));
    let mut head = tok.encode(string_of(&head_text).as_str());
    head.truncate(keep);
    assert(head@ == head_ids(tok@, q.qtype, q.instructions@, os, head_max_len as int));
    let (mut ids, markers) = assemble_prefix(sp, &head, &opt_ids);
    let room: usize = if ids.len() >= max_len {
        0
    } else {
        max_len - ids.len() - 1
    };
    let mut st = tok.encode(string_of(&unmask_exec(state)).as_str());
    st.truncate(room);
    extend_ids(&mut ids, &st);
    ids.push(sp.sep);
    ids.truncate(max_len);
    let kept = markers_below(&markers, max_len as i32);
    BuiltSequence { ids, markers: kept }
}

/// The length of a flattened sequence is the total of the lengths.
proof fn lemma_flatten_alt_len(os: Seq<Seq<i32>>)
    ensures
        os.flatten_alt().len() == total_len(os),
    decreases os.len(),
{
    if os.len() > 0 {
        lemma_flatten_alt_len(os.drop_last());
    }
}

/// In the flattened options, option `k` starts right after the options before it.
proof fn lemma_flatten_alt_start(os: Seq<Seq<i32>>, k: int)
    requires
        0 <= k < os.len(),
        os[k].len() > 0,
    ensures
        total_len(os.take(k)) + os[k].len() <= total_len(os),
        os.flatten_alt()[total_len(os.take(k))] == os[k][0],
    decreases os.len(),
{
    let d = os.drop_last();
    lemma_flatten_alt_len(d);
    lemma_flatten_alt_len(os.take(k));
    assert(os.flatten_alt() == d.flatten_alt() + os.last());
    assert(total_len(os) == total_len(d) + os.last().len());
    if k == os.len() - 1 {
        assert(os.take(k) =~= d);
        assert(os.last() == os[k]);
    } else {
        assert(d.take(k) =~= os.take(k));
        assert(d[k] == os[k]);
        lemma_flatten_alt_start(d, k);
    }
}

proof fn lemma_keep_below(ms: Seq<i32>, lim: i32, j: int)
    requires
        0 <= j < keep_below(ms, lim).len(),
    ensures
        keep_below(ms, lim)[j] < lim,
        exists|i: int| 0 <= i < ms.len() && ms[i] == keep_below(ms, lim)[j],
    decreases ms.len(),
{
    let prev = keep_below(ms.drop_last(), lim);
    if ms.last() < lim && j == prev.len() {
        assert(ms[ms.len() - 1] == ms.last());
    } else {
        lemma_keep_below(ms.drop_last(), lim, j);
        let i = choose|i: int| 0 <= i < ms.drop_last().len() && ms.drop_last()[i] == prev[j];
        assert(ms[i] == ms.drop_last()[i]);
    }
}

/// Every option's ids start with its `[MASK]` marker, also after fitting.
proof fn lemma_fitted_start_with_mask(
    tok: BpeModel,
    mask: i32,
    t: QType,
    cs: Seq<(Seq<char>, Option<Seq<char>>)>,
    head_max_len: int,
)
    requires
        head_max_len >= 16,
    ensures
        forall|k: int|
            0 <= k < fitted_options(tok, mask, t, cs, head_max_len).len() ==> {
                &&& (#[trigger] fitted_options(tok, mask, t, cs, head_max_len)[k]).len() > 0
                &&& fitted_options(tok, mask, t, cs, head_max_len)[k][0] == mask
            },
{
    let opts = render_options_spec(t, cs);
    let raw = Seq::new(opts.len(), |i: int| option_ids(tok, mask, opts[i]));
    assert forall|k: int| 0 <= k < raw.len() implies (#[trigger] raw[k]).len() > 0 && raw[k][0]
        == mask by {
        assert(raw[k] == option_ids(tok, mask, opts[k]));
    }
}

/// In `[CLS] head [SEP] options [SEP] tail`, cut to `max_len`, each reported marker indexes
/// the first id of its option.
proof fn lemma_marker_in_layout(
    sp: SpecialIds,
    head: Seq<i32>,
    os: Seq<Seq<i32>>,
    tail: Seq<i32>,
    max_len: int,
    j: int,
)
    requires
        forall|k: int| 0 <= k < os.len() ==> (#[trigger] os[k]).len() > 0 && os[k][0] == sp.mask,
        sequence_prefix(sp, head, os).len() <= i32::MAX,
        0 <= max_len <= i32::MAX,
        0 <= j < keep_below(marker_positions(head.len() as int, os), max_len as i32).len(),
    ensures
        0 <= keep_below(marker_positions(head.len() as int, os), max_len as i32)[j]
            < keep_at_most(sequence_prefix(sp, head, os) + tail, max_len).len(),
        keep_at_most(sequence_prefix(sp, head, os) + tail, max_len)[keep_below(
            marker_positions(head.len() as int, os),
            max_len as i32,
        )[j] as int] == sp.mask,
{
    let prefix = sequence_prefix(sp, head, os);
    let pos = marker_positions(head.len() as int, os);
    let lim = max_len as i32;
    let ms = keep_below(pos, lim);
    lemma_keep_below(pos, lim, j);
    let i = choose|i: int| 0 <= i < pos.len() && pos[i] == ms[j];
    lemma_flatten_alt_start(os, i);
    lemma_flatten_alt_len(os);
    lemma_flatten_alt_len(os.take(i));
    let x = total_len(os.take(i));
    let p = head.len() + 2 + x;
    assert(prefix.len() == head.len() + 3 + total_len(os));
    assert(p < prefix.len());
    assert(pos[i] == p as i32);
    let a = seq![sp.cls] + head + seq![sp.sep];
    let flat = os.flatten_alt();
    assert(a.len() == head.len() + 2);
    assert((a + flat)[a.len() + x] == flat[x]);
    assert(prefix == (a + flat) + seq![sp.sep]);
    assert(prefix[p] == (a + flat)[p]);
    assert((prefix + tail)[p] == prefix[p]);
}

/// Every marker `build_sequence` reports points into the sequence at an option's `[MASK]`
/// id, provided the positions fit an `i32` (the marker type).
pub proof fn law_markers_point_at_masks(
    tok: BpeModel,
    sp: SpecialIds,
    state: Seq<char>,
    t: QType,
    instructions: Seq<char>,
    cs: Seq<(Seq<char>, Option<Seq<char>>)>,
    max_len: int,
    head_max_len: int,
    j: int,
)
    requires
        head_max_len >= 16,
        0 <= max_len <= i32::MAX,
        sequence_prefix(
            sp,
            head_ids(
                tok,
                t,
                instructions,
                fitted_options(tok, sp.mask, t, cs, head_max_len),
                head_max_len,
            ),
            fitted_options(tok, sp.mask, t, cs, head_max_len),
        ).len() <= i32::MAX,
        0 <= j < sequence_markers(tok, sp, t, instructions, cs, max_len, head_max_len).len(),
    ensures
        0 <= sequence_markers(tok, sp, t, instructions, cs, max_len, head_max_len)[j]
            < sequence_ids(tok, sp, state, t, instructions, cs, max_len, head_max_len).len(),
        sequence_ids(tok, sp, state, t, instructions, cs, max_len, head_max_len)[sequence_markers(
            tok,
            sp,
            t,
            instructions,
            cs,
            max_len,
            head_max_len,
        )[j] as int] == sp.mask,
{
    let os = fitted_options(tok, sp.mask, t, cs, head_max_len);
    let head = head_ids(tok, t, instructions, os, head_max_len);
    let prefix = sequence_prefix(sp, head, os);
    let room = vstd::math::max(0, max_len - prefix.len() - 1);
    let tail = keep_at_most(encode_spec(tok, unmask(state)), room) + seq![sp.sep];
    lemma_fitted_start_with_mask(tok, sp.mask, t, cs, head_max_len);
    assert(prefix + keep_at_most(encode_spec(tok, unmask(state)), room) + seq![sp.sep] == prefix
        + tail);
    lemma_marker_in_layout(sp, head, os, tail, max_len, j);
}

/// A built sequence never exceeds `max_len` ids, and when it has any, it starts with
/// `[CLS]`.
pub proof fn law_sequence_fits_and_starts_with_cls(
    tok: BpeModel,
    sp: SpecialIds,
    state: Seq<char>,
    t: QType,
    instructions: Seq<char>,
    cs: Seq<(Seq<char>, Option<Seq<char>>)>,
    max_len: int,
    head_max_len: int,
)
    requires
        0 <= max_len,
    ensures
        sequence_ids(tok, sp, state, t, instructions, cs, max_len, head_max_len).len() <= max_len,
        max_len > 0 ==> sequence_ids(tok, sp, state, t, instructions, cs, max_len, head_max_len)[0]
            == sp.cls,
{
    let os = fitted_options(tok, sp.mask, t, cs, head_max_len);
    let head = head_ids(tok, t, instructions, os, head_max_len);
    let prefix = sequence_prefix(sp, head, os);
    let room = vstd::math::max(0, max_len - prefix.len() - 1);
    let full = prefix + keep_at_most(encode_spec(tok, unmask(state)), room) + seq![sp.sep];
    assert(prefix[0] == sp.cls);
    assert(full[0] == prefix[0]);
}


/// In the flattened options, the `d`-th id of option `k` sits right after the options
/// before it, `d` places in.
proof fn lemma_flatten_alt_at(os: Seq<Seq<i32>>, k: int, d: int)
    requires
        0 <= k < os.len(),
        0 <= d < os[k].len(),
    ensures
        total_len(os.take(k)) + os[k].len() <= total_len(os),
        os.flatten_alt()[total_len(os.take(k)) + d] == os[k][d],
    decreases os.len(),
{
    let dl = os.drop_last();
    lemma_flatten_alt_len(dl);
    lemma_flatten_alt_len(os.take(k));
    assert(os.flatten_alt() == dl.flatten_alt() + os.last());
    assert(total_len(os) == total_len(dl) + os.last().len());
    if k == os.len() - 1 {
        assert(os.take(k) =~= dl);
        assert(os.last() == os[k]);
    } else {
        assert(dl.take(k) =~= os.take(k));
        assert(dl[k] == os[k]);
        lemma_flatten_alt_at(dl, k, d);
    }
}

/// With non-empty options, the options before `a` are shorter than those before `b > a`,
/// by at least option `a`.
proof fn lemma_total_take_grows(os: Seq<Seq<i32>>, a: int, b: int)
    requires
        0 <= a < b <= os.len(),
        forall|k: int| 0 <= k < os.len() ==> (#[trigger] os[k]).len() > 0,
    ensures
        total_len(os.take(a)) + os[a].len() <= total_len(os.take(b)),
    decreases b - a,
{
    assert(os.take(b).drop_last() =~= os.take(b - 1));
    assert(os.take(b).last() == os[b - 1]);
    if b - 1 > a {
        lemma_total_take_grows(os, a, b - 1);
    }
}

proof fn lemma_keep_below_all(ms: Seq<i32>, lim: i32)
    requires
        forall|j: int| 0 <= j < ms.len() ==> #[trigger] ms[j] < lim,
    ensures
        keep_below(ms, lim) == ms,
    decreases ms.len(),
{
    if ms.len() > 0 {
        lemma_keep_below_all(ms.drop_last(), lim);
        assert(ms.drop_last().push(ms.last()) =~= ms);
    }
}

/// Of an increasing sequence, the elements below a limit are a prefix of it.
proof fn lemma_keep_below_prefix(ms: Seq<i32>, lim: i32)
    requires
        forall|a: int, b: int| 0 <= a < b < ms.len() ==> ms[a] < ms[b],
    ensures
        keep_below(ms, lim).len() <= ms.len(),
        forall|j: int|
            0 <= j < keep_below(ms, lim).len() ==> #[trigger] keep_below(ms, lim)[j] == ms[j],
    decreases ms.len(),
{
    if ms.len() > 0 {
        let d = ms.drop_last();
        lemma_keep_below_prefix(d, lim);
        if ms.last() < lim {
            assert forall|j: int| 0 <= j < d.len() implies #[trigger] d[j] < lim by {
                assert(ms[j] < ms[ms.len() - 1]);
            }
            lemma_keep_below_all(d, lim);
            assert(keep_below(ms, lim) =~= ms);
        }
    }
}

/// With non-empty options that fit, the marker positions increase.
proof fn lemma_marker_positions_increase(head_len: int, os: Seq<Seq<i32>>)
    requires
        0 <= head_len,
        head_len + 3 + total_len(os) <= i32::MAX,
        forall|k: int| 0 <= k < os.len() ==> (#[trigger] os[k]).len() > 0,
    ensures
        forall|a: int, b: int|
            0 <= a < b < os.len() ==> #[trigger] marker_positions(head_len, os)[a]
                < #[trigger] marker_positions(head_len, os)[b],
{
    let pos = marker_positions(head_len, os);
    assert(os.take(os.len() as int) =~= os);
    assert forall|a: int, b: int| 0 <= a < b < os.len() implies #[trigger] pos[a] < #[trigger] pos[b] by {
        lemma_total_take_nonneg(os, a);
        lemma_total_take_grows(os, a, b);
        lemma_total_take_grows(os, b, os.len() as int);
    }
}

proof fn lemma_total_take_nonneg(os: Seq<Seq<i32>>, a: int)
    requires
        0 <= a <= os.len(),
    ensures
        total_len(os.take(a)) >= 0,
    decreases a,
{
    if a > 0 {
        assert(os.take(a).drop_last() =~= os.take(a - 1));
        lemma_total_take_nonneg(os, a - 1);
    }
}

/// The options keep their label-index order through fitting: fitted option `k` is a
/// non-empty start of option `k`'s own ids (its `[MASK]`, then ` <option k text>`).
pub proof fn law_fitted_options_keep_option_order(
    tok: BpeModel,
    mask: i32,
    t: QType,
    cs: Seq<(Seq<char>, Option<Seq<char>>)>,
    head_max_len: int,
    k: int,
)
    requires
        head_max_len >= 16,
        0 <= k < render_options_spec(t, cs).len(),
    ensures
        fitted_options(tok, mask, t, cs, head_max_len).len() == render_options_spec(t, cs).len(),
        0 < fitted_options(tok, mask, t, cs, head_max_len)[k].len() <= option_ids(
            tok,
            mask,
            render_options_spec(t, cs)[k],
        ).len(),
        fitted_options(tok, mask, t, cs, head_max_len)[k] == option_ids(
            tok,
            mask,
            render_options_spec(t, cs)[k],
        ).take(fitted_options(tok, mask, t, cs, head_max_len)[k].len() as int),
{
    let opts = render_options_spec(t, cs);
    let raw = Seq::new(opts.len(), |i: int| option_ids(tok, mask, opts[i]));
    let o = raw[k];
    assert(o == option_ids(tok, mask, opts[k]));
    assert(o.len() >= 1);
    assert(o.take(o.len() as int) =~= o);
    if head_max_len - total_len(raw) < 16 {
        let per = vstd::math::max(4, (head_max_len - 16) / vstd::math::max(1, raw.len() as int));
        assert(keep_at_most(o, per) =~= o.take(keep_at_most(o, per).len() as int));
    }
}

/// Each surviving marker sits on its own option, in label-index order: the ids from
/// `markers[j]` on are option `j`'s own ids (its `[MASK]`, then ` <option j text>`), for as
/// many as its fitted block holds and the sequence keeps.
#[verifier::spinoff_prover]
pub proof fn law_markers_lead_their_options(
    tok: BpeModel,
    sp: SpecialIds,
    state: Seq<char>,
    t: QType,
    instructions: Seq<char>,
    cs: Seq<(Seq<char>, Option<Seq<char>>)>,
    max_len: int,
    head_max_len: int,
    j: int,
    d: int,
)
    requires
        head_max_len >= 16,
        0 <= max_len <= i32::MAX,
        sequence_prefix(
            sp,
            head_ids(
                tok,
                t,
                instructions,
                fitted_options(tok, sp.mask, t, cs, head_max_len),
                head_max_len,
            ),
            fitted_options(tok, sp.mask, t, cs, head_max_len),
        ).len() <= i32::MAX,
        0 <= j < sequence_markers(tok, sp, t, instructions, cs, max_len, head_max_len).len(),
        0 <= d < fitted_options(tok, sp.mask, t, cs, head_max_len)[j].len(),
        sequence_markers(tok, sp, t, instructions, cs, max_len, head_max_len)[j] + d
            < sequence_ids(tok, sp, state, t, instructions, cs, max_len, head_max_len).len(),
    ensures
        j < render_options_spec(t, cs).len(),
        sequence_ids(tok, sp, state, t, instructions, cs, max_len, head_max_len)[sequence_markers(
            tok,
            sp,
            t,
            instructions,
            cs,
            max_len,
            head_max_len,
        )[j] + d] == option_ids(tok, sp.mask, render_options_spec(t, cs)[j])[d],
{
    let os = fitted_options(tok, sp.mask, t, cs, head_max_len);
    let head = head_ids(tok, t, instructions, os, head_max_len);
    let prefix = sequence_prefix(sp, head, os);
    let room = vstd::math::max(0, max_len - prefix.len() - 1);
    let full = prefix + keep_at_most(encode_spec(tok, unmask(state)), room) + seq![sp.sep];
    let ids = keep_at_most(full, max_len);
    let pos = marker_positions(head.len() as int, os);
    let lim = max_len as i32;
    lemma_fitted_start_with_mask(tok, sp.mask, t, cs, head_max_len);
    lemma_flatten_alt_len(os);
    assert(prefix.len() == head.len() + 3 + total_len(os));
    lemma_marker_positions_increase(head.len() as int, os);
    lemma_keep_below_prefix(pos, lim);
    assert(sequence_markers(tok, sp, t, instructions, cs, max_len, head_max_len) == keep_below(
        pos,
        lim,
    ));
    assert(j < pos.len());
    let x = total_len(os.take(j));
    lemma_total_take_nonneg(os, j);
    lemma_flatten_alt_at(os, j, d);
    assert(x + d < os.flatten_alt().len()) by {
        lemma_flatten_alt_len(os);
    }
    let p = head.len() + 2 + x;
    assert(pos[j] == p as i32);
    let a = seq![sp.cls] + head + seq![sp.sep];
    let flat = os.flatten_alt();
    assert((a + flat)[a.len() + x + d] == flat[x + d]);
    assert(prefix == (a + flat) + seq![sp.sep]);
    assert(prefix[p + d] == (a + flat)[p + d]);
    assert(full[p + d] == prefix[p + d]);
    assert(ids[p + d] == full[p + d]);
    law_fitted_options_keep_option_order(tok, sp.mask, t, cs, head_max_len, j);
    assert(os[j][d] == option_ids(tok, sp.mask, render_options_spec(t, cs)[j]).take(
        os[j].len() as int,
    )[d]);
}

} // verus!
