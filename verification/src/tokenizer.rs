//! GPT-2 byte-level BPE, driven by the vocabulary and merge list baked into the model file
//! (`tokenizer.ggml.tokens` / `tokenizer.ggml.merges`): the GPT-2 pre-tokenizer, the
//! byte-to-character table, and the merge loop.
use vstd::prelude::*;
use crate::text::{
    copy_chars, extend_chars, first_index, first_index_of, is_white_space, is_ws, matches_at,
    occurs_at, string_of, vec_chars_eq, views_of,
};
use vstd::hash_map::StringHashMap;

verus! {

/// Whether `c` has Unicode's `Alphabetic` property (what `char::is_alphabetic` reports).
pub uninterp spec fn char_alphabetic(c: char) -> bool;

/// Whether `c` is numeric in the sense of `char::is_numeric` (general categories `Nd`, `Nl`,
/// `No`).
pub uninterp spec fn char_numeric(c: char) -> bool;

/// `char::is_alphabetic`. Beyond naming the result, the contract states the ASCII case, where
/// the alphabetic characters are exactly the Latin letters.
#[verifier::external_body]
fn is_alphabetic(c: char) -> (r: bool)
    ensures
        r == char_alphabetic(c),
        (c as u32) < 128 ==> (r <==> (('a' <= c && c <= 'z') || ('A' <= c && c <= 'Z'))),
{
    c.is_alphabetic()
}

/// `char::is_numeric`. Beyond naming the result, the contract states the ASCII case, where
/// the numeric characters are exactly the decimal digits.
#[verifier::external_body]
fn is_numeric(c: char) -> (r: bool)
    ensures
        r == char_numeric(c),
        (c as u32) < 128 ==> (r <==> ('0' <= c && c <= '9')),
{
    c.is_numeric()
}

/// `char::from_u32`: the character with code point `u`, if `u` is a Unicode scalar value.
#[verifier::external_body]
fn char_from_u32(u: u32) -> (r: Option<char>)
    ensures
        r is Some <==> (u <= 0x10FFFF && !(0xD800 <= u && u <= 0xDFFF)),
        r matches Some(c) ==> c as u32 == u,
{
    char::from_u32(u)
}

/// Whether `c` is a letter for the pre-tokenizer: among ASCII characters exactly the
/// Latin letters, beyond ASCII what `char::is_alphabetic` reports of a character that is
/// not white space (no white-space character is alphabetic).
pub open spec fn is_letter(c: char) -> bool {
    if (c as u32) < 128 {
        ('a' <= c && c <= 'z') || ('A' <= c && c <= 'Z')
    } else {
        char_alphabetic(c) && !is_white_space(c)
    }
}

/// Whether `c` is a number for the pre-tokenizer: among ASCII characters exactly the
/// decimal digits, beyond ASCII what `char::is_numeric` reports of a character that is not
/// white space (no white-space character is numeric).
pub open spec fn is_number(c: char) -> bool {
    if (c as u32) < 128 {
        '0' <= c && c <= '9'
    } else {
        char_numeric(c) && !is_white_space(c)
    }
}

fn is_letter_exec(c: char) -> (r: bool)
    ensures
        r == is_letter(c),
{
    is_alphabetic(c) && !is_ws(c)
}

fn is_number_exec(c: char) -> (r: bool)
    ensures
        r == is_number(c),
{
    is_numeric(c) && !is_ws(c)
}

/// The character class a pre-tokenizer run is made of: letters (0), numbers (1), or
/// anything that is neither white space, a letter nor a number (2).
pub open spec fn class_of(c: char) -> int {
    if is_letter(c) {
        0
    } else if is_number(c) {
        1
    } else {
        2
    }
}

/// Whether `c` belongs to character class `k`.
pub open spec fn in_class(k: int, c: char) -> bool {
    if k == 0 {
        is_letter(c)
    } else if k == 1 {
        is_number(c)
    } else {
        !is_white_space(c) && !is_letter(c) && !is_number(c)
    }
}

/// The end of the longest run of class-`k` characters of `s` starting at `i`.
pub open spec fn class_run_end(s: Seq<char>, i: int, k: int) -> int
    decreases s.len() - i,
{
    if i < 0 || i >= s.len() || !in_class(k, s[i]) {
        i
    } else {
        class_run_end(s, i + 1, k)
    }
}

/// The end of the longest run of white space of `s` starting at `i`.
pub open spec fn ws_run_end(s: Seq<char>, i: int) -> int
    decreases s.len() - i,
{
    if i < 0 || i >= s.len() || !is_white_space(s[i]) {
        i
    } else {
        ws_run_end(s, i + 1)
    }
}

/// The English contractions the GPT-2 pattern splits off, in the pattern's order.
pub open spec fn contractions() -> Seq<Seq<char>> {
    seq![
        seq!['\'', 's'],
        seq!['\'', 't'],
        seq!['\'', 'r', 'e'],
        seq!['\'', 'v', 'e'],
        seq!['\'', 'm'],
        seq!['\'', 'l', 'l'],
        seq!['\'', 'd'],
    ]
}

/// The length of the first contraction of the list that occurs in `s` at `i`, or 0.
pub open spec fn contraction_len_from(s: Seq<char>, i: int, k: int) -> int
    decreases 7 - k,
{
    if k < 0 || k >= 7 {
        0
    } else if occurs_at(s, contractions()[k], i) {
        contractions()[k].len() as int
    } else {
        contraction_len_from(s, i, k + 1)
    }
}

/// The length of the contraction that starts `s` at `i`, or 0 if none does.
pub open spec fn contraction_len(s: Seq<char>, i: int) -> int {
    contraction_len_from(s, i, 0)
}

/// The end of the piece that starts at index `i` of `s`, following GPT-2's pattern
/// `'s|'t|'re|'ve|'m|'ll|'d| ?\p{L}+| ?\p{N}+| ?[^\s\p{L}\p{N}]+|\s+(?!\S)|\s+`:
/// a white-space run that ends the text is one piece; otherwise a run keeps all but its last
/// character, a lone space joins the run that follows it, and any other lone white-space
/// character is a piece of its own; otherwise a contraction, or a run of letters, of numbers
/// or of other characters.
pub open spec fn piece_end(s: Seq<char>, i: int) -> int {
    if is_white_space(s[i]) {
        let j = ws_run_end(s, i);
        if j == s.len() {
            j
        } else if j - 1 > i {
            j - 1
        } else if s[i] == ' ' {
            class_run_end(s, i + 1, class_of(s[i + 1]))
        } else {
            j
        }
    } else if contraction_len(s, i) > 0 {
        i + contraction_len(s, i)
    } else {
        class_run_end(s, i, class_of(s[i]))
    }
}

/// The pieces the GPT-2 pre-tokenizer splits `s` into, from index `i` on.
pub open spec fn pieces_from(s: Seq<char>, i: int) -> Seq<Seq<char>>
    decreases s.len() - i,
{
    if i < 0 || i >= s.len() {
        seq![]
    } else {
        let e = piece_end(s, i);
        if e <= i || e > s.len() {
            seq![s.skip(i)]
        } else {
            seq![s.subrange(i, e)] + pieces_from(s, e)
        }
    }
}

/// The pieces the GPT-2 pre-tokenizer splits `s` into.
pub open spec fn pretokenize_spec(s: Seq<char>) -> Seq<Seq<char>> {
    pieces_from(s, 0)
}

proof fn lemma_class_run_end(s: Seq<char>, i: int, k: int)
    requires
        0 <= i <= s.len(),
    ensures
        i <= class_run_end(s, i, k) <= s.len(),
        forall|j: int| i <= j < class_run_end(s, i, k) ==> in_class(k, #[trigger] s[j]),
        class_run_end(s, i, k) == s.len() || !in_class(k, s[class_run_end(s, i, k)]),
    decreases s.len() - i,
{
    if i < s.len() && in_class(k, s[i]) {
        lemma_class_run_end(s, i + 1, k);
    }
}

proof fn lemma_ws_run_end(s: Seq<char>, i: int)
    requires
        0 <= i <= s.len(),
    ensures
        i <= ws_run_end(s, i) <= s.len(),
        forall|j: int| i <= j < ws_run_end(s, i) ==> is_white_space(#[trigger] s[j]),
        ws_run_end(s, i) == s.len() || !is_white_space(s[ws_run_end(s, i)]),
    decreases s.len() - i,
{
    if i < s.len() && is_white_space(s[i]) {
        lemma_ws_run_end(s, i + 1);
    }
}

proof fn lemma_contraction_len_from(s: Seq<char>, i: int, k: int)
    requires
        0 <= i,
    ensures
        contraction_len_from(s, i, k) == 0 || (contraction_len_from(s, i, k) >= 2 && i
            + contraction_len_from(s, i, k) <= s.len() && s[i] == '\''),
    decreases 7 - k,
{
    if 0 <= k < 7 {
        if occurs_at(s, contractions()[k], i) {
            let c = contractions()[k];
            assert(c[0] == '\'');
            assert(s.subrange(i, i + c.len())[0] == s[i]);
        } else {
            lemma_contraction_len_from(s, i, k + 1);
        }
    }
}

/// A character that is not white space belongs to its own class.
proof fn lemma_own_class(c: char)
    requires
        !is_white_space(c),
    ensures
        in_class(class_of(c), c),
{
}

/// Every piece is non-empty and within the text.
pub proof fn lemma_piece_end(s: Seq<char>, i: int)
    requires
        0 <= i < s.len(),
    ensures
        i < piece_end(s, i) <= s.len(),
{
    if is_white_space(s[i]) {
        lemma_ws_run_end(s, i);
        let j = ws_run_end(s, i);
        if j == s.len() {
        } else if j - 1 > i {
        } else if s[i] == ' ' {
            assert(!is_white_space(s[i + 1]));
            lemma_class_run_end(s, i + 1, class_of(s[i + 1]));
            lemma_own_class(s[i + 1]);
        } else {
        }
    } else if contraction_len(s, i) > 0 {
        lemma_contraction_len_from(s, i, 0);
    } else {
        lemma_class_run_end(s, i, class_of(s[i]));
        lemma_own_class(s[i]);
    }
}

/// Where the match of alternative `k` of GPT-2's pattern
/// `'s|'t|'re|'ve|'m|'ll|'d| ?\p{L}+| ?\p{N}+| ?[^\s\p{L}\p{N}]+|\s+(?!\S)|\s+`
/// starting at index `i` of `s` ends, or `-1` when it does not match there. Alternatives
/// `0..7` are the contractions; `7`, `8`, `9` an optional space and a greedy run of
/// letters, numbers or other characters (the space taken when the run can follow it);
/// `10` the longest white-space run not followed by a non-space; `11` a white-space run.
pub open spec fn alternative_end(s: Seq<char>, i: int, k: int) -> int {
    if k < 7 {
        if occurs_at(s, contractions()[k], i) {
            i + contractions()[k].len()
        } else {
            -1
        }
    } else if k <= 9 {
        if s[i] == ' ' && i + 1 < s.len() && in_class(k - 7, s[i + 1]) {
            class_run_end(s, i + 1, k - 7)
        } else if in_class(k - 7, s[i]) {
            class_run_end(s, i, k - 7)
        } else {
            -1
        }
    } else if !is_white_space(s[i]) {
        -1
    } else if k == 10 {
        let j = ws_run_end(s, i);
        if j == s.len() {
            j
        } else if j - 1 > i {
            j - 1
        } else {
            -1
        }
    } else {
        ws_run_end(s, i)
    }
}

/// The end of the leftmost-first match of the pattern at `i`: that of the first
/// alternative, from `k` on, that matches.
pub open spec fn first_alternative_from(s: Seq<char>, i: int, k: int) -> int
    decreases 12 - k,
{
    if k < 0 || k >= 12 {
        -1
    } else if alternative_end(s, i, k) >= 0 {
        alternative_end(s, i, k)
    } else {
        first_alternative_from(s, i, k + 1)
    }
}

proof fn lemma_contraction_alternatives(s: Seq<char>, i: int, k: int)
    requires
        0 <= i < s.len(),
        0 <= k <= 7,
    ensures
        contraction_len_from(s, i, k) > 0 ==> first_alternative_from(s, i, k) == i
            + contraction_len_from(s, i, k),
        contraction_len_from(s, i, k) == 0 ==> first_alternative_from(s, i, k)
            == first_alternative_from(s, i, 7),
    decreases 7 - k,
{
    if k < 7 {
        lemma_contraction_alternatives(s, i, k + 1);
    }
}

/// The pre-tokenizer's pieces are the pattern's successive leftmost-first matches: at
/// every position the piece ends where the first matching alternative of GPT-2's pattern
/// ends, and that match is never empty, so the next match starts where this one ends.
pub proof fn law_pretokenize_follows_the_pattern(s: Seq<char>, i: int)
    requires
        0 <= i < s.len(),
    ensures
        piece_end(s, i) == first_alternative_from(s, i, 0),
        first_alternative_from(s, i, 0) > i,
{
    lemma_piece_end(s, i);
    lemma_contraction_len_from(s, i, 0);
    lemma_contraction_alternatives(s, i, 0);
    let c = s[i];
    if contraction_len(s, i) > 0 {
        assert(!is_white_space(c));
    } else if is_white_space(c) {
        lemma_ws_run_end(s, i);
        let j = ws_run_end(s, i);
        assert(!in_class(0, c) && !in_class(1, c) && !in_class(2, c));
        if j == s.len() || j - 1 > i {
            if i + 1 < s.len() {
                assert(is_white_space(s[i + 1]));
                assert(!in_class(0, s[i + 1]) && !in_class(1, s[i + 1]) && !in_class(2, s[i + 1]));
            }
            assert(alternative_end(s, i, 7) < 0);
            assert(alternative_end(s, i, 8) < 0);
            assert(alternative_end(s, i, 9) < 0);
            assert(first_alternative_from(s, i, 10) == alternative_end(s, i, 10));
            assert(first_alternative_from(s, i, 9) == first_alternative_from(s, i, 10));
            assert(first_alternative_from(s, i, 8) == first_alternative_from(s, i, 9));
            assert(first_alternative_from(s, i, 7) == first_alternative_from(s, i, 8));
        } else if c == ' ' {
            let d = s[i + 1];
            assert(!is_white_space(d));
            lemma_own_class(d);
            lemma_class_run_end(s, i + 1, class_of(d));
            if class_of(d) >= 1 {
                assert(alternative_end(s, i, 7) < 0);
            }
            if class_of(d) == 2 {
                assert(alternative_end(s, i, 8) < 0);
            }
            let k = 7 + class_of(d);
            assert(first_alternative_from(s, i, k) == alternative_end(s, i, k));
            if k >= 8 {
                assert(first_alternative_from(s, i, 8) == first_alternative_from(s, i, k));
                assert(first_alternative_from(s, i, 7) == first_alternative_from(s, i, 8));
            }
        } else {
            if i + 1 < s.len() {
                assert(!(s[i] == ' '));
            }
            assert(alternative_end(s, i, 7) < 0);
            assert(alternative_end(s, i, 8) < 0);
            assert(alternative_end(s, i, 9) < 0);
            assert(alternative_end(s, i, 10) < 0);
            assert(first_alternative_from(s, i, 11) == alternative_end(s, i, 11));
            assert(first_alternative_from(s, i, 10) == first_alternative_from(s, i, 11));
            assert(first_alternative_from(s, i, 9) == first_alternative_from(s, i, 10));
            assert(first_alternative_from(s, i, 8) == first_alternative_from(s, i, 9));
            assert(first_alternative_from(s, i, 7) == first_alternative_from(s, i, 8));
        }
    } else {
        lemma_own_class(c);
        lemma_class_run_end(s, i, class_of(c));
        assert(c != ' ');
        if class_of(c) >= 1 {
            assert(alternative_end(s, i, 7) < 0);
        }
        if class_of(c) == 2 {
            assert(alternative_end(s, i, 8) < 0);
        }
        let k = 7 + class_of(c);
        assert(first_alternative_from(s, i, k) == alternative_end(s, i, k));
        if k >= 8 {
            assert(first_alternative_from(s, i, 8) == first_alternative_from(s, i, k));
            assert(first_alternative_from(s, i, 7) == first_alternative_from(s, i, 8));
        }
    }
}

fn in_class_exec(k: u8, c: char) -> (r: bool)
    requires
        k <= 2,
    ensures
        r == in_class(k as int, c),
{
    if k == 0 {
        is_letter_exec(c)
    } else if k == 1 {
        is_number_exec(c)
    } else {
        !is_ws(c) && !is_letter_exec(c) && !is_number_exec(c)
    }
}

fn class_of_exec(c: char) -> (r: u8)
    ensures
        r <= 2,
        r as int == class_of(c),
{
    if is_letter_exec(c) {
        0
    } else if is_number_exec(c) {
        1
    } else {
        2
    }
}

fn class_run_end_exec(s: &Vec<char>, i: usize, k: u8) -> (e: usize)
    requires
        i <= s@.len(),
        k <= 2,
    ensures
        e == class_run_end(s@, i as int, k as int),
{
    let mut j = i;
    while j < s.len() && in_class_exec(k, s[j])
        invariant
            i <= j <= s@.len(),
            k <= 2,
            class_run_end(s@, i as int, k as int) == class_run_end(s@, j as int, k as int),
        decreases s@.len() - j,
    {
        j = j + 1;
    }
    j
}

fn ws_run_end_exec(s: &Vec<char>, i: usize) -> (e: usize)
    requires
        i <= s@.len(),
    ensures
        e == ws_run_end(s@, i as int),
{
    let mut j = i;
    while j < s.len() && is_ws(s[j])
        invariant
            i <= j <= s@.len(),
            ws_run_end(s@, i as int) == ws_run_end(s@, j as int),
        decreases s@.len() - j,
    {
        j = j + 1;
    }
    j
}

fn contraction_chars(k: usize) -> (r: Vec<char>)
    requires
        k < 7,
    ensures
        r@ == contractions()[k as int],
{
    let r = if k == 0 {
        vec!['\'', 's']
    } else if k == 1 {
        vec!['\'', 't']
    } else if k == 2 {
        vec!['\'', 'r', 'e']
    } else if k == 3 {
        vec!['\'', 'v', 'e']
    } else if k == 4 {
        vec!['\'', 'm']
    } else if k == 5 {
        vec!['\'', 'l', 'l']
    } else {
        vec!['\'', 'd']
    };
    assert(r@ =~= contractions()[k as int]);
    r
}

fn contraction_len_exec(s: &Vec<char>, i: usize) -> (r: usize)
    ensures
        r as int == contraction_len(s@, i as int),
{
    let mut k: usize = 0;
    while k < 7
        invariant
            k <= 7,
            contraction_len(s@, i as int) == contraction_len_from(s@, i as int, k as int),
        decreases 7 - k,
    {
        let c = contraction_chars(k);
        if matches_at(s, &c, i) {
            return c.len();
        }
        k = k + 1;
    }
    0
}

/// The end of the piece that starts at index `i` of `s`.
fn piece_end_exec(s: &Vec<char>, i: usize) -> (e: usize)
    requires
        i < s@.len(),
    ensures
        e as int == piece_end(s@, i as int),
{
    let n = s.len();
    if is_ws(s[i]) {
        let j = ws_run_end_exec(s, i);
        proof {
            lemma_ws_run_end(s@, i as int);
        }
        if j == n {
            j
        } else if j - 1 > i {
            j - 1
        } else if s[i] == ' ' {
            let k = class_of_exec(s[i + 1]);
            class_run_end_exec(s, i + 1, k)
        } else {
            j
        }
    } else {
        let c = contraction_len_exec(s, i);
        if c > 0 {
            proof {
                lemma_contraction_len_from(s@, i as int, 0);
            }
            i + c
        } else {
            let k = class_of_exec(s[i]);
            class_run_end_exec(s, i, k)
        }
    }
}

/// Splits `text` into pieces the way GPT-2's pre-tokenizer regex
/// `'s|'t|'re|'ve|'m|'ll|'d| ?\p{L}+| ?\p{N}+| ?[^\s\p{L}\p{N}]+|\s+(?!\S)|\s+` does.
pub fn pretokenize(text: &str) -> (r: Vec<String>)
    ensures
        views_of(r@) == pretokenize_spec(text@),
{
    let ch = crate::text::chars_of(text);
    let n = ch.len();
    let mut out: Vec<String> = Vec::new();
    let mut i: usize = 0;
    while i < n
        invariant
            i <= n,
            n == ch@.len(),
            views_of(out@) + pieces_from(ch@, i as int) == pieces_from(ch@, 0),
        decreases n - i,
    {
        let e = piece_end_exec(&ch, i);
        proof {
            lemma_piece_end(ch@, i as int);
        }
        let mut piece: Vec<char> = Vec::new();
        let mut k = i;
        while k < e
            invariant
                i <= k <= e,
                e <= n,
                n == ch@.len(),
                piece@ == ch@.subrange(i as int, k as int),
            decreases e - k,
        {
            piece.push(ch[k]);
            k = k + 1;
        }
        let ghost before = out@;
        out.push(string_of(&piece));
        assert(views_of(out@) =~= views_of(before).push(ch@.subrange(i as int, e as int)));
        assert(pieces_from(ch@, i as int) == seq![ch@.subrange(i as int, e as int)]
            + pieces_from(ch@, e as int));
        assert(views_of(out@) + pieces_from(ch@, e as int) =~= views_of(before) + pieces_from(
            ch@,
            i as int,
        ));
        i = e;
    }
    assert(pieces_from(ch@, n as int) == Seq::<Seq<char>>::empty());
    assert(views_of(out@) =~= views_of(out@) + pieces_from(ch@, n as int));
    out
}

/// Pre-tokenization loses nothing: the pieces, concatenated in order, give back the text,
/// and no piece is empty.
pub proof fn law_pretokenize_is_lossless(s: Seq<char>)
    ensures
        pretokenize_spec(s).flatten() == s,
        forall|k: int|
            0 <= k < pretokenize_spec(s).len() ==> #[trigger] pretokenize_spec(s)[k].len() > 0,
{
    lemma_pieces_from_lossless(s, 0);
    assert(s.skip(0) =~= s);
}

proof fn lemma_pieces_from_lossless(s: Seq<char>, i: int)
    requires
        0 <= i <= s.len(),
    ensures
        pieces_from(s, i).flatten() == s.skip(i),
        forall|k: int| 0 <= k < pieces_from(s, i).len() ==> #[trigger] pieces_from(s, i)[k].len() > 0,
    decreases s.len() - i,
{
    if i == s.len() {
        assert(s.skip(i) =~= Seq::<char>::empty());
    } else {
        lemma_piece_end(s, i);
        let e = piece_end(s, i);
        lemma_pieces_from_lossless(s, e);
        let p = pieces_from(s, i);
        assert(p.drop_first() =~= pieces_from(s, e));
        assert(s.subrange(i, e) + s.skip(e) =~= s.skip(i));
        assert forall|k: int| 0 <= k < p.len() implies #[trigger] p[k].len() > 0 by {
            if k > 0 {
                assert(p[k] == pieces_from(s, e)[k - 1]);
            }
        }
    }
}

/// The code point GPT-2's byte-level table assigns to byte `b`: printable bytes
/// (`!`..=`~`, `¡`..=`¬`, `®`..=`ÿ`) stand for themselves, and the remaining 68 bytes, in
/// increasing order, take the code points from 256 on.
pub open spec fn gpt2_byte_code(b: int) -> u32 {
    if b < 0x21 {
        (256 + b) as u32
    } else if b <= 0x7E {
        b as u32
    } else if b <= 0xA0 {
        (289 + (b - 0x7F)) as u32
    } else if b <= 0xAC {
        b as u32
    } else if b == 0xAD {
        323
    } else {
        b as u32
    }
}

/// Whether byte `b` is printable in GPT-2's byte-level table.
pub open spec fn printable_byte(b: int) -> bool {
    (0x21 <= b <= 0x7E) || (0xA1 <= b <= 0xAC) || (0xAE <= b <= 0xFF)
}

/// How many non-printable bytes come before byte `b`.
pub open spec fn unprintable_before(b: int) -> int {
    if b <= 0x21 {
        b
    } else if b <= 0x7F {
        33
    } else if b <= 0xA1 {
        33 + (b - 0x7F)
    } else if b <= 0xAD {
        67
    } else {
        68
    }
}

/// The character GPT-2's byte-level table assigns to byte `b`.
pub open spec fn byte_symbol(b: u8) -> char {
    gpt2_byte_code(b as int) as char
}

/// GPT-2's byte-to-unicode table: every byte maps to a printable character so BPE can run
/// on text.
pub open spec fn byte_table() -> Seq<char> {
    Seq::new(256, |b: int| byte_symbol(b as u8))
}

/// GPT-2's byte-to-unicode table.
fn byte_to_unicode() -> (r: Vec<char>)
    ensures
        r@ == byte_table(),
{
    broadcast use vstd::utf8::char_u32_cast;

    let mut map: Vec<char> = Vec::new();
    let mut n: u32 = 0;
    let mut b: u32 = 0;
    while b < 256
        invariant
            b <= 256,
            n as int == unprintable_before(b as int),
            map@.len() == b,
            forall|k: int| 0 <= k < b ==> #[trigger] map@[k] == byte_symbol(k as u8),
        decreases 256 - b,
    {
        let printable = (0x21 <= b && b <= 0x7E) || (0xA1 <= b && b <= 0xAC) || (0xAE <= b && b
            <= 0xFF);
        let code = if printable {
            b
        } else {
            256 + n
        };
        assert(code == gpt2_byte_code(b as int));
        let c = char_from_u32(code).unwrap();
        proof {
            vstd::utf8::char_u32_cast(c, code);
        }
        assert((b as u8) as int == b as int);
        map.push(c);
        if !printable {
            n = n + 1;
        }
        b = b + 1;
    }
    assert(map@ =~= byte_table());
    map
}

/// The vocabulary the token list gives: each token maps to the index of its last
/// occurrence in the list.
pub open spec fn vocab_of(tokens: Seq<Seq<char>>) -> Map<Seq<char>, i32>
    decreases tokens.len(),
{
    if tokens.len() == 0 {
        Map::empty()
    } else {
        vocab_of(tokens.drop_last()).insert(tokens.last(), (tokens.len() - 1) as i32)
    }
}

/// The merge ranks the merge list gives: each merge line `a b` (a line with a space)
/// maps to the index of its last occurrence; lines without a space are skipped.
pub open spec fn rank_table(merges: Seq<Seq<char>>) -> Map<Seq<char>, u32>
    decreases merges.len(),
{
    if merges.len() == 0 {
        Map::empty()
    } else if first_index_of(merges.last(), ' ') >= 0 {
        rank_table(merges.drop_last()).insert(merges.last(), (merges.len() - 1) as u32)
    } else {
        rank_table(merges.drop_last())
    }
}

/// The merge line that would merge symbol `x` with symbol `y`: `x`, a space, `y`.
/// Symbols are built from byte-table characters, which are never a space, so a merge line
/// names exactly one pair.
pub open spec fn pair_key(x: Seq<char>, y: Seq<char>) -> Seq<char> {
    x + seq![' '] + y
}

/// The abstract state of a BPE tokenizer.
pub struct BpeModel {
    pub vocab: Map<Seq<char>, i32>,
    pub ranks: Map<Seq<char>, u32>,
    pub unk: i32,
}

/// The lowest-ranked adjacent pair among the first `upto` pairs of `parts`, as
/// `(rank, index)`; of equally ranked pairs the leftmost wins.
pub open spec fn best_pair(ranks: Map<Seq<char>, u32>, parts: Seq<Seq<char>>, upto: int) -> Option<
    (u32, int),
>
    decreases upto,
{
    if upto <= 0 {
        None
    } else {
        let prev = best_pair(ranks, parts, upto - 1);
        let i = upto - 1;
        let key = pair_key(parts[i], parts[i + 1]);
        if ranks.contains_key(key) {
            match prev {
                None => Some((ranks[key], i)),
                Some(bp) => if ranks[key] < bp.0 {
                    Some((ranks[key], i))
                } else {
                    prev
                },
            }
        } else {
            prev
        }
    }
}

/// One left-to-right pass over `parts` from index `i`, merging every non-overlapping
/// adjacent occurrence of `a` followed by `b` into `a + b`.
pub open spec fn merge_pass(parts: Seq<Seq<char>>, a: Seq<char>, b: Seq<char>, i: int) -> Seq<
    Seq<char>,
>
    decreases parts.len() - i,
{
    if i < 0 || i >= parts.len() {
        seq![]
    } else if i + 1 < parts.len() && parts[i] == a && parts[i + 1] == b {
        seq![a + b] + merge_pass(parts, a, b, i + 2)
    } else {
        seq![parts[i]] + merge_pass(parts, a, b, i + 1)
    }
}

/// Classic GPT-2 BPE: while some adjacent pair has a rank, merge every occurrence of the
/// lowest-ranked one.
pub open spec fn bpe_merge(ranks: Map<Seq<char>, u32>, parts: Seq<Seq<char>>) -> Seq<Seq<char>>
    decreases parts.len(),
{
    if parts.len() < 2 {
        parts
    } else {
        match best_pair(ranks, parts, parts.len() - 1) {
            None => parts,
            Some(bp) => {
                let next = merge_pass(parts, parts[bp.1], parts[bp.1 + 1], 0);
                if next.len() < parts.len() {
                    bpe_merge(ranks, next)
                } else {
                    next
                }
            },
        }
    }
}

/// Each character of `w` as a one-character symbol.
pub open spec fn singletons(w: Seq<char>) -> Seq<Seq<char>> {
    Seq::new(w.len(), |k: int| seq![w[k]])
}

/// The byte-level word of a piece: its UTF-8 bytes through the byte table.
pub open spec fn byte_word(piece: Seq<char>) -> Seq<char> {
    vstd::utf8::encode_utf8(piece).map_values(|b: u8| byte_symbol(b))
}

/// The id of a symbol: its vocabulary id, or the unknown-token id.
pub open spec fn symbol_id(m: BpeModel, sym: Seq<char>) -> i32 {
    if m.vocab.contains_key(sym) {
        m.vocab[sym]
    } else {
        m.unk
    }
}

/// The ids one pre-tokenizer piece encodes to.
pub open spec fn piece_ids(m: BpeModel, piece: Seq<char>) -> Seq<i32> {
    bpe_merge(m.ranks, singletons(byte_word(piece))).map_values(|sym: Seq<char>| symbol_id(m, sym))
}

/// The ids `text` encodes to: the ids of its pre-tokenizer pieces, in order.
pub open spec fn encode_spec(m: BpeModel, text: Seq<char>) -> Seq<i32> {
    pretokenize_spec(text).map_values(|p: Seq<char>| piece_ids(m, p)).flatten()
}

/// The character sequences held by a list of character vectors.
pub open spec fn deep(parts: Seq<Vec<char>>) -> Seq<Seq<char>> {
    parts.map_values(|v: Vec<char>| v@)
}

proof fn lemma_best_pair(ranks: Map<Seq<char>, u32>, parts: Seq<Seq<char>>, upto: int)
    ensures
        best_pair(ranks, parts, upto) matches Some(bp) ==> 0 <= bp.1 < upto && ranks.contains_key(
            pair_key(parts[bp.1], parts[bp.1 + 1]),
        ),
    decreases upto,
{
    if upto > 0 {
        lemma_best_pair(ranks, parts, upto - 1);
    }
}

proof fn lemma_merge_pass_len(parts: Seq<Seq<char>>, a: Seq<char>, b: Seq<char>, j: int, k: int)
    requires
        0 <= j <= k,
        k + 1 < parts.len(),
        parts[k] == a,
        parts[k + 1] == b,
    ensures
        merge_pass(parts, a, b, j).len() < parts.len() - j,
    decreases parts.len() - j,
{
    if parts[j] == a && parts[j + 1] == b {
        lemma_merge_pass_len_le(parts, a, b, j + 2);
    } else {
        lemma_merge_pass_len(parts, a, b, j + 1, k);
    }
}

proof fn lemma_merge_pass_len_le(parts: Seq<Seq<char>>, a: Seq<char>, b: Seq<char>, j: int)
    requires
        0 <= j,
    ensures
        merge_pass(parts, a, b, j).len() <= if j <= parts.len() {
            parts.len() - j
        } else {
            0
        },
    decreases parts.len() - j,
{
    if j < parts.len() {
        if j + 1 < parts.len() && parts[j] == a && parts[j + 1] == b {
            lemma_merge_pass_len_le(parts, a, b, j + 2);
        } else {
            lemma_merge_pass_len_le(parts, a, b, j + 1);
        }
    }
}

/// A BPE tokenizer: vocabulary, merge ranks, the byte table and the unknown-token id.
pub struct Bpe {
    vocab: StringHashMap<i32>,
    ranks: StringHashMap<u32>,
    byte_enc: Vec<char>,
    unk: i32,
}

impl View for Bpe {
    type V = BpeModel;

    closed spec fn view(&self) -> BpeModel {
        BpeModel { vocab: self.vocab@, ranks: self.ranks@, unk: self.unk }
    }
}

impl Bpe {
    #[verifier::type_invariant]
    closed spec fn wf(self) -> bool {
        self.byte_enc@ == byte_table()
    }

    /// Builds the tokenizer from the token list (a token's id is its index; a repeated
    /// token keeps its last index), the merge list (a line `a b` ranks the pair `a`, `b` by
    /// its index; lines without a space are skipped) and the unknown-token id.
    pub fn new(tokens: &[String], merges: &[String], unk: i32) -> (r: Self)
        ensures
            r@ == (BpeModel {
                vocab: vocab_of(views_of(tokens@)),
                ranks: rank_table(views_of(merges@)),
                unk,
            }),
    {
        let mut vocab: StringHashMap<i32> = StringHashMap::new();
        let mut i: usize = 0;
        while i < tokens.len()
            invariant
                i <= tokens@.len(),
                vocab@ == vocab_of(views_of(tokens@.take(i as int))),
            decreases tokens@.len() - i,
        {
            proof {
                let cur = views_of(tokens@.take(i + 1));
                assert(cur.drop_last() =~= views_of(tokens@.take(i as int)));
                assert(cur.last() == tokens@[i as int]@);
            }
            vocab.insert(tokens[i].clone(), i as i32);
            i = i + 1;
        }
        assert(tokens@.take(tokens@.len() as int) =~= tokens@);
        let mut ranks: StringHashMap<u32> = StringHashMap::new();
        let mut j: usize = 0;
        while j < merges.len()
            invariant
                j <= merges@.len(),
                ranks@ == rank_table(views_of(merges@.take(j as int))),
            decreases merges@.len() - j,
        {
            proof {
                let cur = views_of(merges@.take(j + 1));
                assert(cur.drop_last() =~= views_of(merges@.take(j as int)));
                assert(cur.last() == merges@[j as int]@);
            }
            let m = crate::text::chars_of(merges[j].as_str());
            if first_index(&m, ' ').is_some() {
                ranks.insert(merges[j].clone(), j as u32);
            }
            j = j + 1;
        }
        assert(merges@.take(merges@.len() as int) =~= merges@);
        Bpe { vocab, ranks, byte_enc: byte_to_unicode(), unk }
    }

    /// The rank of the pair `x`, `y`, if the merge list ranks it.
    fn pair_rank(&self, x: &Vec<char>, y: &Vec<char>) -> (r: Option<u32>)
        ensures
            match r {
                Some(k) => self@.ranks.contains_key(pair_key(x@, y@)) && self@.ranks[pair_key(
                    x@,
                    y@,
                )] == k,
                None => !self@.ranks.contains_key(pair_key(x@, y@)),
            },
    {
        let mut key = copy_chars(x);
        key.push(' ');
        extend_chars(&mut key, y);
        assert(key@ =~= pair_key(x@, y@));
        let k = string_of(&key);
        match self.ranks.get(k.as_str()) {
            Some(r) => Some(*r),
            None => None,
        }
    }

    /// The id of symbol `sym`: its vocabulary id, or the unknown-token id.
    fn symbol_id(&self, sym: &Vec<char>) -> (r: i32)
        ensures
            r == symbol_id(self@, sym@),
    {
        let k = string_of(sym);
        match self.vocab.get(k.as_str()) {
            Some(v) => *v,
            None => self.unk,
        }
    }

    /// Classic GPT-2 BPE on a byte-level word: repeatedly merge the lowest-ranked adjacent
    /// pair.
    fn bpe(&self, word: &Vec<char>) -> (r: Vec<Vec<char>>)
        ensures
            deep(r@) == bpe_merge(self@.ranks, singletons(word@)),
    {
        let mut parts: Vec<Vec<char>> = Vec::new();
        let mut k: usize = 0;
        while k < word.len()
            invariant
                k <= word@.len(),
                parts@.len() == k,
                deep(parts@) == singletons(word@).take(k as int),
            decreases word@.len() - k,
        {
            let mut one: Vec<char> = Vec::new();
            one.push(word[k]);
            assert(one@ =~= seq![word@[k as int]]);
            let ghost before = parts@;
            parts.push(one);
            assert forall|j: int| 0 <= j < k + 1 implies #[trigger] deep(parts@)[j] == singletons(
                word@,
            ).take(k + 1)[j] by {
                if j < k {
                    assert(parts@[j] == before[j]);
                    assert(deep(before)[j] == singletons(word@).take(k as int)[j]);
                }
            }
            assert(deep(parts@) =~= singletons(word@).take(k + 1));
            k = k + 1;
        }
        assert(singletons(word@).take(word@.len() as int) =~= singletons(word@));
        if parts.len() < 2 {
            return parts;
        }
        let ghost target = bpe_merge(self@.ranks, singletons(word@));
        loop
            invariant_except_break
                parts@.len() >= 2,
            invariant
                bpe_merge(self@.ranks, deep(parts@)) == target,
            ensures
                deep(parts@) == target,
            decreases parts@.len(),
        {
            let ghost p = deep(parts@);
            let n = parts.len();
            let mut best: Option<(u32, usize)> = None;
            let mut i: usize = 0;
            while i < n - 1
                invariant
                    n == parts@.len(),
                    n >= 2,
                    i <= n - 1,
                    p == deep(parts@),
                    match best {
                        None => best_pair(self@.ranks, p, i as int) is None,
                        Some(bp) => best_pair(self@.ranks, p, i as int) == Some((bp.0, bp.1 as int)),
                    },
                decreases n - 1 - i,
            {
                let r = self.pair_rank(&parts[i], &parts[i + 1]);
                assert(p[i as int] == parts@[i as int]@ && p[i + 1] == parts@[i + 1]@);
                match r {
                    Some(rk) => {
                        let better = match best {
                            None => true,
                            Some(bp) => rk < bp.0,
                        };
                        if better {
                            best = Some((rk, i));
                        }
                    },
                    None => {},
                }
                i = i + 1;
            }
            let bi = match best {
                None => {
                    assert(bpe_merge(self@.ranks, p) == p);
                    break ;
                },
                Some(bp) => bp.1,
            };
            proof {
                lemma_best_pair(self@.ranks, p, (n - 1) as int);
            }
            let a = copy_chars(&parts[bi]);
            let b = copy_chars(&parts[bi + 1]);
            let mut next: Vec<Vec<char>> = Vec::new();
            let mut j: usize = 0;
            while j < n
                invariant
                    n == parts@.len(),
                    p == deep(parts@),
                    j <= n + 1,
                    deep(next@) + merge_pass(p, a@, b@, j as int) == merge_pass(p, a@, b@, 0),
                decreases n + 1 - j,
            {
                let ghost before = next@;
                if j + 1 < n && vec_chars_eq(&parts[j], &a) && vec_chars_eq(&parts[j + 1], &b) {
                    let mut ab = copy_chars(&a);
                    extend_chars(&mut ab, &b);
                    next.push(ab);
                    assert(deep(next@) =~= deep(before).push(a@ + b@));
                    assert(merge_pass(p, a@, b@, j as int) == seq![a@ + b@] + merge_pass(
                        p,
                        a@,
                        b@,
                        j + 2,
                    ));
                    assert(deep(next@) + merge_pass(p, a@, b@, j + 2) =~= deep(before)
                        + merge_pass(p, a@, b@, j as int));
                    j = j + 2;
                } else {
                    let c = copy_chars(&parts[j]);
                    next.push(c);
                    assert(deep(next@) =~= deep(before).push(p[j as int]));
                    assert(merge_pass(p, a@, b@, j as int) == seq![p[j as int]] + merge_pass(
                        p,
                        a@,
                        b@,
                        j + 1,
                    ));
                    assert(deep(next@) + merge_pass(p, a@, b@, j + 1) =~= deep(before)
                        + merge_pass(p, a@, b@, j as int));
                    j = j + 1;
                }
            }
            proof {
                assert(merge_pass(p, a@, b@, j as int) == Seq::<Seq<char>>::empty());
                assert(deep(next@) =~= merge_pass(p, a@, b@, 0));
                lemma_merge_pass_len(p, a@, b@, 0, bi as int);
            }
            parts = next;
            if parts.len() < 2 {
                assert(bpe_merge(self@.ranks, deep(parts@)) == deep(parts@));
                break ;
            }
        }
        parts
    }

    /// Encodes `text` to token ids: pre-tokenizes it, maps each piece's UTF-8 bytes through
    /// the byte table, runs BPE on it, and looks each resulting symbol up in the vocabulary
    /// (unknown symbols get the unknown-token id).
    pub fn encode(&self, text: &str) -> (r: Vec<i32>)
        ensures
            r@ == encode_spec(self@, text@),
    {
        proof {
            use_type_invariant(self);
        }
        let pieces = pretokenize(text);
        let ghost ps = pretokenize_spec(text@);
        let ghost per = ps.map_values(|p: Seq<char>| piece_ids(self@, p));
        let mut out: Vec<i32> = Vec::new();
        let mut i: usize = 0;
        while i < pieces.len()
            invariant
                i <= pieces@.len(),
                views_of(pieces@) == ps,
                per == ps.map_values(|p: Seq<char>| piece_ids(self@, p)),
                out@ == per.take(i as int).flatten_alt(),
                self.byte_enc@ == byte_table(),
            decreases pieces@.len() - i,
        {
            let bytes = pieces[i].as_str().as_bytes();
            let ghost piece = pieces@[i as int]@;
            assert(piece == ps[i as int]);
            let mut word: Vec<char> = Vec::new();
            let mut k: usize = 0;
            while k < bytes.len()
                invariant
                    k <= bytes@.len(),
                    bytes@ == vstd::utf8::encode_utf8(piece),
                    word@ == byte_word(piece).take(k as int),
                    self.byte_enc@ == byte_table(),
                decreases bytes@.len() - k,
            {
                word.push(self.byte_enc[bytes[k] as usize]);
                assert(word@ =~= byte_word(piece).take(k + 1));
                k = k + 1;
            }
            assert(word@ =~= byte_word(piece));
            let syms = self.bpe(&word);
            let ghost before = out@;
            let mut t: usize = 0;
            while t < syms.len()
                invariant
                    t <= syms@.len(),
                    out@ == before + deep(syms@).map_values(|sym: Seq<char>| symbol_id(self@, sym)).take(
                        t as int,
                    ),
                decreases syms@.len() - t,
            {
                let id = self.symbol_id(&syms[t]);
                out.push(id);
                assert(out@ =~= before + deep(syms@).map_values(
                    |sym: Seq<char>| symbol_id(self@, sym),
                ).take(t + 1));
                t = t + 1;
            }
            proof {
                let ids = deep(syms@).map_values(|sym: Seq<char>| symbol_id(self@, sym));
                assert(ids.take(syms@.len() as int) =~= ids);
                assert(ids == piece_ids(self@, piece));
                assert(per.take(i + 1).drop_last() =~= per.take(i as int));
                assert(per.take(i + 1).last() == per[i as int]);
            }
            i = i + 1;
        }
        proof {
            assert(per.take(pieces@.len() as int) =~= per);
            per.lemma_flatten_and_flatten_alt_are_equivalent();
        }
        out
    }
}

proof fn lemma_merge_pass_flatten(parts: Seq<Seq<char>>, a: Seq<char>, b: Seq<char>, j: int)
    requires
        0 <= j <= parts.len(),
    ensures
        merge_pass(parts, a, b, j).flatten() == parts.skip(j).flatten(),
    decreases parts.len() - j,
{
    if j == parts.len() {
        assert(parts.skip(j) =~= Seq::<Seq<char>>::empty());
    } else if j + 1 < parts.len() && parts[j] == a && parts[j + 1] == b {
        lemma_merge_pass_flatten(parts, a, b, j + 2);
        let m = merge_pass(parts, a, b, j);
        assert(m.drop_first() =~= merge_pass(parts, a, b, j + 2));
        let t = parts.skip(j);
        assert(t.drop_first().drop_first() =~= parts.skip(j + 2));
        assert(t.drop_first().flatten() == t.drop_first().first() + t.drop_first().drop_first().flatten());
        assert((a + b) + parts.skip(j + 2).flatten() =~= a + (b + parts.skip(j + 2).flatten()));
    } else {
        lemma_merge_pass_flatten(parts, a, b, j + 1);
        let m = merge_pass(parts, a, b, j);
        assert(m.drop_first() =~= merge_pass(parts, a, b, j + 1));
        assert(parts.skip(j).drop_first() =~= parts.skip(j + 1));
    }
}

proof fn lemma_bpe_merge_flatten(ranks: Map<Seq<char>, u32>, parts: Seq<Seq<char>>)
    ensures
        bpe_merge(ranks, parts).flatten() == parts.flatten(),
    decreases parts.len(),
{
    if parts.len() >= 2 {
        match best_pair(ranks, parts, parts.len() - 1) {
            None => {},
            Some(bp) => {
                let next = merge_pass(parts, parts[bp.1], parts[bp.1 + 1], 0);
                lemma_merge_pass_flatten(parts, parts[bp.1], parts[bp.1 + 1], 0);
                assert(parts.skip(0) =~= parts);
                if next.len() < parts.len() {
                    lemma_bpe_merge_flatten(ranks, next);
                }
            },
        }
    }
}

proof fn lemma_singletons_flatten(w: Seq<char>)
    ensures
        singletons(w).flatten() == w,
    decreases w.len(),
{
    if w.len() > 0 {
        lemma_singletons_flatten(w.drop_first());
        assert(singletons(w).drop_first() =~= singletons(w.drop_first()));
        assert(seq![w[0]] + w.drop_first() =~= w);
    }
}

/// BPE only ever joins neighbouring symbols: the symbols it produces for a byte-level word,
/// concatenated in order, spell that word.
pub proof fn law_bpe_segments_word(ranks: Map<Seq<char>, u32>, w: Seq<char>)
    ensures
        bpe_merge(ranks, singletons(w)).flatten() == w,
{
    lemma_bpe_merge_flatten(ranks, singletons(w));
    lemma_singletons_flatten(w);
}

/// The byte table is one-to-one, and no byte maps to a space, so byte-level text can be
/// mapped back to its bytes and merge lines `a b` split unambiguously.
pub proof fn law_byte_table_injective_and_space_free(b1: u8, b2: u8)
    ensures
        b1 != b2 ==> byte_symbol(b1) != byte_symbol(b2),
        byte_symbol(b1) != ' ',
{
    broadcast use vstd::utf8::char_u32_cast;

    let c1 = gpt2_byte_code(b1 as int);
    let c2 = gpt2_byte_code(b2 as int);
    assert(b1 != b2 ==> c1 != c2);
    assert(c1 <= 323);
    let s1 = c1 as char;
    let s2 = c2 as char;
    assert(s1 as u32 == c1);
    assert(s2 as u32 == c2);
    assert(c1 != 0x20);
}

/// A token's id is the index of its last occurrence in the token list.
pub proof fn law_vocab_id_is_last_index(tokens: Seq<Seq<char>>, i: int)
    requires
        0 <= i < tokens.len(),
        forall|j: int| i < j < tokens.len() ==> tokens[j] != tokens[i],
    ensures
        vocab_of(tokens).contains_key(tokens[i]),
        vocab_of(tokens)[tokens[i]] == i as i32,
    decreases tokens.len(),
{
    if i < tokens.len() - 1 {
        let d = tokens.drop_last();
        assert forall|j: int| i < j < d.len() implies d[j] != d[i] by {
            assert(d[j] == tokens[j]);
        }
        law_vocab_id_is_last_index(d, i);
        assert(tokens.last() != tokens[i]);
    }
}


/// Whether `c` is an ASCII Latin letter.
pub open spec fn ascii_letter(c: char) -> bool {
    ('a' <= c && c <= 'z') || ('A' <= c && c <= 'Z')
}

/// Whether `c` is an ASCII decimal digit.
pub open spec fn ascii_digit(c: char) -> bool {
    '0' <= c && c <= '9'
}

/// Whether the characters of `s` from `x` to `e` hold no ASCII digit, or no ASCII letter.
pub open spec fn span_unmixed(s: Seq<char>, x: int, e: int) -> bool {
    (forall|y: int| x <= y < e ==> !ascii_digit(#[trigger] s[y])) || (forall|y: int|
        x <= y < e ==> !ascii_letter(#[trigger] s[y]))
}

proof fn lemma_contraction_has_no_digit(s: Seq<char>, x: int, k: int)
    requires
        0 <= x,
        contraction_len_from(s, x, k) > 0,
    ensures
        x + contraction_len_from(s, x, k) <= s.len(),
        forall|y: int| x <= y < x + contraction_len_from(s, x, k) ==> !ascii_digit(#[trigger] s[y]),
    decreases 7 - k,
{
    if 0 <= k < 7 {
        let c = contractions()[k];
        if occurs_at(s, c, x) {
            assert(forall|t: int| 0 <= t < c.len() ==> !ascii_digit(#[trigger] c[t])) by {
                if k == 0 {
                    assert(c =~= seq!['\'', 's']);
                } else if k == 1 {
                    assert(c =~= seq!['\'', 't']);
                } else if k == 2 {
                    assert(c =~= seq!['\'', 'r', 'e']);
                } else if k == 3 {
                    assert(c =~= seq!['\'', 'v', 'e']);
                } else if k == 4 {
                    assert(c =~= seq!['\'', 'm']);
                } else if k == 5 {
                    assert(c =~= seq!['\'', 'l', 'l']);
                } else {
                    assert(c =~= seq!['\'', 'd']);
                }
            }
            assert forall|y: int| x <= y < x + c.len() implies !ascii_digit(#[trigger] s[y]) by {
                assert(s.subrange(x, x + c.len())[y - x] == s[y]);
            }
        } else {
            lemma_contraction_has_no_digit(s, x, k + 1);
        }
    }
}

proof fn lemma_run_unmixed(s: Seq<char>, x: int, k: int)
    requires
        0 <= x <= s.len(),
        0 <= k <= 2,
    ensures
        span_unmixed(s, x, class_run_end(s, x, k)),
{
    lemma_class_run_end(s, x, k);
    let e = class_run_end(s, x, k);
    if k == 0 {
        assert forall|y: int| x <= y < e implies !ascii_digit(#[trigger] s[y]) by {
            assert(in_class(0, s[y]));
        }
    } else {
        assert forall|y: int| x <= y < e implies !ascii_letter(#[trigger] s[y]) by {
            assert(in_class(k, s[y]));
        }
    }
}

proof fn lemma_piece_unmixed(s: Seq<char>, x: int)
    requires
        0 <= x < s.len(),
    ensures
        span_unmixed(s, x, piece_end(s, x)),
{
    lemma_piece_end(s, x);
    let e = piece_end(s, x);
    let c = s[x];
    if is_white_space(c) {
        lemma_ws_run_end(s, x);
        let j = ws_run_end(s, x);
        if j == s.len() || j - 1 > x {
            assert forall|y: int| x <= y < e implies !ascii_letter(#[trigger] s[y]) by {
                assert(is_white_space(s[y]));
            }
        } else if c == ' ' {
            let k = class_of(s[x + 1]);
            lemma_run_unmixed(s, x + 1, k);
            if forall|y: int| x + 1 <= y < e ==> !ascii_digit(#[trigger] s[y]) {
                assert forall|y: int| x <= y < e implies !ascii_digit(#[trigger] s[y]) by {
                    if y > x {
                    }
                }
            } else {
                assert forall|y: int| x <= y < e implies !ascii_letter(#[trigger] s[y]) by {
                    if y > x {
                    }
                }
            }
        } else {
            assert forall|y: int| x <= y < e implies !ascii_letter(#[trigger] s[y]) by {
                assert(y == x);
            }
        }
    } else if contraction_len(s, x) > 0 {
        lemma_contraction_has_no_digit(s, x, 0);
    } else {
        lemma_run_unmixed(s, x, class_of(c));
    }
}

proof fn lemma_pieces_are_spans(s: Seq<char>, i: int, m: int)
    requires
        0 <= i,
        0 <= m < pieces_from(s, i).len(),
    ensures
        exists|x: int|
            i <= x < s.len() && pieces_from(s, i)[m] == s.subrange(x, piece_end(s, x)),
    decreases s.len() - i,
{
    lemma_piece_end(s, i);
    let e = piece_end(s, i);
    assert(pieces_from(s, i) == seq![s.subrange(i, e)] + pieces_from(s, e));
    if m > 0 {
        lemma_pieces_are_spans(s, e, m - 1);
        assert(pieces_from(s, i)[m] == pieces_from(s, e)[m - 1]);
    } else {
        assert(pieces_from(s, i)[0] == s.subrange(i, e));
    }
}

/// Letters and digits never share a piece: no piece the pre-tokenizer makes holds both an
/// ASCII letter and an ASCII digit (so `3rd` splits into `3` and `rd`).
pub proof fn law_pieces_keep_letters_and_digits_apart(s: Seq<char>, m: int, a: int, b: int)
    requires
        0 <= m < pretokenize_spec(s).len(),
        0 <= a < pretokenize_spec(s)[m].len(),
        0 <= b < pretokenize_spec(s)[m].len(),
    ensures
        !(ascii_letter(pretokenize_spec(s)[m][a]) && ascii_digit(pretokenize_spec(s)[m][b])),
{
    lemma_pieces_are_spans(s, 0, m);
    let x = choose|x: int| 0 <= x < s.len() && pieces_from(s, 0)[m] == s.subrange(x, piece_end(s, x));
    lemma_piece_unmixed(s, x);
    lemma_piece_end(s, x);
    let p = pretokenize_spec(s)[m];
    assert(p[a] == s[x + a]);
    assert(p[b] == s[x + b]);
}


/// Whether the adjacent pair of `parts` at `j` has a merge rank.
pub open spec fn ranked_at(ranks: Map<Seq<char>, u32>, parts: Seq<Seq<char>>, j: int) -> bool {
    ranks.contains_key(pair_key(parts[j], parts[j + 1]))
}

/// The merge rank of the adjacent pair of `parts` at `j`.
pub open spec fn rank_at(ranks: Map<Seq<char>, u32>, parts: Seq<Seq<char>>, j: int) -> u32 {
    ranks[pair_key(parts[j], parts[j + 1])]
}

proof fn lemma_best_pair_is_least(ranks: Map<Seq<char>, u32>, parts: Seq<Seq<char>>, upto: int)
    requires
        0 <= upto < parts.len(),
    ensures
        match best_pair(ranks, parts, upto) {
            None => forall|j: int| 0 <= j < upto ==> !#[trigger] ranked_at(ranks, parts, j),
            Some(bp) => {
                &&& 0 <= bp.1 < upto
                &&& ranked_at(ranks, parts, bp.1)
                &&& bp.0 == rank_at(ranks, parts, bp.1)
                &&& forall|j: int|
                    0 <= j < upto && #[trigger] ranked_at(ranks, parts, j) ==> bp.0 <= rank_at(
                        ranks,
                        parts,
                        j,
                    ) && (j < bp.1 ==> bp.0 < rank_at(ranks, parts, j))
            },
        },
    decreases upto,
{
    if upto > 0 {
        lemma_best_pair_is_least(ranks, parts, upto - 1);
    }
}

/// BPE merges the lowest-ranked adjacent pair first: when the pair at `i` has the lowest
/// rank of all ranked adjacent pairs (and no pair left of it has that rank), encoding goes
/// on from the symbols with every occurrence of that pair merged, and that merge joins
/// something; with no ranked pair at all, the symbols stay as they are.
pub proof fn law_bpe_merges_lowest_rank_first(ranks: Map<Seq<char>, u32>, parts: Seq<Seq<char>>, i: int)
    requires
        0 <= i,
        i + 1 < parts.len(),
        ranked_at(ranks, parts, i),
        forall|j: int|
            0 <= j < parts.len() - 1 && #[trigger] ranked_at(ranks, parts, j) ==> rank_at(
                ranks,
                parts,
                i,
            ) <= rank_at(ranks, parts, j) && (j < i ==> rank_at(ranks, parts, i) < rank_at(
                ranks,
                parts,
                j,
            )),
    ensures
        merge_pass(parts, parts[i], parts[i + 1], 0).len() < parts.len(),
        bpe_merge(ranks, parts) == bpe_merge(ranks, merge_pass(parts, parts[i], parts[i + 1], 0)),
{
    let n = parts.len() - 1;
    lemma_best_pair_is_least(ranks, parts, n);
    let bp = best_pair(ranks, parts, n);
    assert(ranked_at(ranks, parts, i));
    match bp {
        None => {},
        Some(p) => {
            assert(ranked_at(ranks, parts, p.1));
            if p.1 < i {
                assert(rank_at(ranks, parts, i) < rank_at(ranks, parts, p.1));
            }
            if i < p.1 {
                assert(p.0 < rank_at(ranks, parts, i));
            }
            assert(p.1 == i);
        },
    }
    lemma_merge_pass_len(parts, parts[i], parts[i + 1], 0, i);
}

/// With no ranked adjacent pair, BPE leaves the symbols as they are.
pub proof fn law_bpe_stops_without_ranked_pair(ranks: Map<Seq<char>, u32>, parts: Seq<Seq<char>>)
    requires
        forall|j: int| 0 <= j < parts.len() - 1 ==> !#[trigger] ranked_at(ranks, parts, j),
    ensures
        bpe_merge(ranks, parts) == parts,
{
    if parts.len() >= 2 {
        lemma_best_pair_is_least(ranks, parts, parts.len() - 1);
    }
}

} // verus!
