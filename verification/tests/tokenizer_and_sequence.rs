use openjev::sequence::{build_sequence, choice_question, QType, Question, SpecialIds};
use openjev::tokenizer::{pretokenize, Bpe};

fn strings(v: &[&str]) -> Vec<String> {
    v.iter().map(|s| s.to_string()).collect()
}

#[test]
fn bpe_merges_lowest_ranked_pairs_first() {
    // "Ġ" is the byte-level symbol of the space byte.
    let tokens = strings(&["a", "b", "ab", "\u{120}", "\u{120}ab", "c"]);
    let merges = strings(&["a b", "\u{120} ab", "nospace"]);
    let bpe = Bpe::new(&tokens, &merges, 99);
    assert_eq!(bpe.encode("ab ab c"), vec![2, 4, 3, 5]);
    assert_eq!(bpe.encode("z"), vec![99]);
    assert_eq!(bpe.encode(""), Vec::<i32>::new());
}

#[test]
fn bpe_later_duplicate_token_wins() {
    let tokens = strings(&["a", "a"]);
    let bpe = Bpe::new(&tokens, &[], 7);
    assert_eq!(bpe.encode("a"), vec![1]);
}

#[test]
fn bpe_encodes_non_ascii_through_its_utf8_bytes() {
    // 'é' is two UTF-8 bytes (0xC3 0xA9), both printable in the byte table.
    let tokens = strings(&["\u{c3}", "\u{a9}", "\u{c3}\u{a9}"]);
    let merges = strings(&["\u{c3} \u{a9}"]);
    assert_eq!(Bpe::new(&tokens, &[], 0).encode("é"), vec![0, 1]);
    assert_eq!(Bpe::new(&tokens, &merges, 0).encode("é"), vec![2]);
}

#[test]
fn pretokenize_pieces_concatenate_to_the_text() {
    for t in ["Hello,   world!!  42x", "\t\tx", "it's  ", "  ", "a\u{3000}b", "x'll'd"] {
        let p = pretokenize(t);
        assert!(p.iter().all(|s| !s.is_empty()));
        assert_eq!(p.concat(), t);
    }
    assert_eq!(pretokenize("\t\tx"), vec!["\t", "\t", "x"]);
    assert_eq!(pretokenize("we'll go"), vec!["we", "'ll", " go"]);
}

fn unk_only() -> Bpe {
    Bpe::new(&[], &[], 0)
}

#[test]
fn build_sequence_lays_out_head_options_and_state() {
    let tok = unk_only();
    let sp = SpecialIds { cls: 1, sep: 2, mask: 3 };
    let q = choice_question("Pick", &strings(&["A", "B"]));
    let b = build_sequence(&tok, &sp, "xy", &q, 64, 192);
    // head "choice question: Pick" is 21 bytes, one unknown id each
    let mut want = vec![1];
    want.extend(vec![0; 21]);
    want.extend([2, 3, 0, 0, 3, 0, 0, 2, 0, 0, 2]);
    assert_eq!(b.ids, want);
    assert_eq!(b.markers, vec![23, 26]);
    for m in &b.markers {
        assert_eq!(b.ids[*m as usize], 3);
    }
}

#[test]
fn build_sequence_cuts_to_max_len_and_drops_markers_beyond_it() {
    let tok = unk_only();
    let sp = SpecialIds { cls: 1, sep: 2, mask: 3 };
    let q = choice_question("Pick", &strings(&["A", "B"]));
    let b = build_sequence(&tok, &sp, "xy", &q, 25, 192);
    assert_eq!(b.ids.len(), 25);
    assert_eq!(b.markers, vec![23]);
    assert_eq!(b.ids[23], 3);
}

#[test]
fn build_sequence_keeps_head_to_what_options_leave() {
    let tok = unk_only();
    let sp = SpecialIds { cls: 1, sep: 2, mask: 3 };
    let q = choice_question("Pick", &strings(&["A", "B"]));
    let b = build_sequence(&tok, &sp, "", &q, 512, 16);
    // options take 6 of 16 head positions, leaving 10 for the head
    let mut want = vec![1];
    want.extend(vec![0; 10]);
    want.extend([2, 3, 0, 0, 3, 0, 0, 2, 2]);
    assert_eq!(b.ids, want);
    assert_eq!(b.markers, vec![12, 15]);
}

#[test]
fn build_sequence_removes_mask_text_and_cuts_long_options() {
    let tok = unk_only();
    let sp = SpecialIds { cls: 1, sep: 2, mask: 3 };
    let long = "x".repeat(100);
    let q = Question {
        qtype: QType::Choice,
        instructions: "[MASK]".to_string(),
        criteria: vec![(long, None)],
    };
    let b = build_sequence(&tok, &sp, "", &q, 512, 192);
    // head "choice question:  " (the mask became a space) is 18 bytes
    assert_eq!(b.markers, vec![20]);
    // the option body is cut to 48 ids after its marker
    assert_eq!(b.ids.len(), 1 + 18 + 1 + 1 + 48 + 1 + 1);
}

#[test]
fn choice_question_lists_undescribed_options() {
    let q = choice_question("Pick one.", &strings(&["A", "B"]));
    assert_eq!(q.qtype, QType::Choice);
    assert_eq!(q.instructions, "Pick one.");
    assert_eq!(q.criteria, vec![("A".to_string(), None), ("B".to_string(), None)]);
    assert_eq!(QType::Score.name(), "score");
    assert_eq!(QType::Noul.name(), "noul");
}
