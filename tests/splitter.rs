use ragkit::splitter::{sentences_of, windows_of, OverlapTooLarge, TextSplitter};

fn strings(v: &[&str]) -> Vec<String> {
    v.iter().map(|s| s.to_string()).collect()
}

#[test]
fn windows_at_offsets_zero_seven_fourteen_twenty_one() {
    let splitter = TextSplitter::new(10, 3);
    let text = "abcdefghijklmnopqrstuvwxy";
    assert_eq!(text.chars().count(), 25);
    let chunks = splitter.split_text(text);
    assert_eq!(chunks.len(), 4);
    assert_eq!(chunks, strings(&["abcdefghij", "hijklmnopq", "opqrstuvwx", "vwxy"]));
}

#[test]
fn unique_spans_rebuild_text() {
    let overlap = 3;
    let splitter = TextSplitter::new(10, overlap);
    let text = "The quick brown fox jumps over the lazy dog";
    let chunks = splitter.split_text(text);
    let mut rebuilt = String::new();
    for (i, chunk) in chunks.iter().enumerate() {
        if i == 0 {
            rebuilt.push_str(chunk);
        } else {
            rebuilt.extend(chunk.chars().skip(overlap));
        }
    }
    assert_eq!(rebuilt, text);
}

#[test]
fn fixed_windows_count_graphemes_not_chars() {
    let splitter = TextSplitter::new(2, 0);
    let text = "e\u{301}a\u{310}o\u{308}";
    let chunks = splitter.split_text(text);
    assert_eq!(chunks, strings(&["e\u{301}a\u{310}", "o\u{308}"]));
}

#[test]
fn fixed_windows_of_empty_text() {
    let splitter = TextSplitter::new(4, 1);
    assert!(splitter.split_text("").is_empty());
}

#[test]
fn fixed_window_shorter_than_size() {
    let splitter = TextSplitter::new(10, 9);
    assert_eq!(splitter.split_text("abc"), strings(&["abc"]));
}

#[test]
fn fixed_windows_with_largest_overlap() {
    let splitter = TextSplitter::new(3, 2);
    assert_eq!(splitter.split_text("abcde"), strings(&["abc", "bcd", "cde"]));
}

#[test]
fn try_new_refuses_overlap_not_below_size() {
    assert_eq!(
        TextSplitter::try_new(5, 5).err(),
        Some(OverlapTooLarge { chunk_size: 5, chunk_overlap: 5 })
    );
    assert_eq!(
        TextSplitter::try_new(5, 6).err(),
        Some(OverlapTooLarge { chunk_size: 5, chunk_overlap: 6 })
    );
    assert_eq!(
        TextSplitter::try_new(0, 0).err(),
        Some(OverlapTooLarge { chunk_size: 0, chunk_overlap: 0 })
    );
    assert!(TextSplitter::try_new(5, 4).is_ok());
}

#[test]
fn recursive_split_packs_pieces_between_separators() {
    let splitter = TextSplitter::new(10, 2);
    let chunks = splitter.recursive_split("aaa bbb\n\nccc ddd eee fff");
    assert_eq!(chunks, strings(&["aaa bbb", "ccc ddd", "eee fff"]));
}

#[test]
fn recursive_split_falls_back_to_windows() {
    let splitter = TextSplitter::new(4, 1);
    let chunks = splitter.recursive_split("abcdefgh xy");
    assert_eq!(chunks, strings(&["abcd", "defg", "gh", "xy"]));
}

#[test]
fn recursive_split_keeps_every_other_character() {
    let splitter = TextSplitter::new(8, 0);
    let text = "Rust is fast.\n\nVerus checks proofs。It is neat.\nA line\nanother one";
    let chunks = splitter.recursive_split(text);
    let is_sep = |c: &char| matches!(*c, '\n' | '。' | '.' | ' ');
    let mut from_chunks: Vec<char> = chunks.iter().flat_map(|c| c.chars()).filter(|c| !is_sep(c)).collect();
    let mut from_text: Vec<char> = text.chars().filter(|c| !is_sep(c)).collect();
    assert_eq!(from_chunks, from_text);
    from_chunks.sort();
    from_text.sort();
    assert_eq!(from_chunks, from_text);
    for chunk in &chunks {
        assert!(!chunk.is_empty());
    }
}

#[test]
fn recursive_split_counts_separator_bytes() {
    let splitter = TextSplitter::new(7, 0);
    let chunks = splitter.recursive_split("ab。cd。ef");
    assert_eq!(chunks, strings(&["ab。cd", "ef"]));
    let splitter = TextSplitter::new(6, 0);
    let chunks = splitter.recursive_split("ab。cd。ef");
    assert_eq!(chunks, strings(&["ab", "cd", "ef"]));
}

#[test]
fn recursive_split_of_empty_text() {
    let splitter = TextSplitter::new(5, 1);
    assert!(splitter.recursive_split("").is_empty());
}

#[test]
fn sentences_packed_into_one_chunk() {
    let splitter = TextSplitter::new(10, 0);
    assert_eq!(splitter.split_by_sentences("Hi. Bye! ok?"), strings(&["Hi。Bye。ok。"]));
}

#[test]
fn sentences_split_when_they_do_not_fit() {
    let splitter = TextSplitter::new(5, 0);
    assert_eq!(splitter.split_by_sentences("Hi. Bye! ok?"), strings(&["Hi。", "Bye。", "ok。"]));
}

#[test]
fn long_sentence_is_an_oversized_chunk() {
    let splitter = TextSplitter::new(3, 0);
    let chunks = splitter.split_by_sentences("Hi. Bye! ok?");
    assert_eq!(chunks, strings(&["Hi。", "Bye。", "ok。"]));
    assert_eq!(chunks[1].chars().count(), 4);
}

#[test]
fn blank_sentences_are_dropped() {
    let splitter = TextSplitter::new(20, 0);
    assert_eq!(splitter.split_by_sentences("  .。\t!一文目。二文目?  "), strings(&["一文目。二文目。"]));
    assert!(splitter.split_by_sentences(" . ! ").is_empty());
}

#[test]
fn windows_over_given_clusters() {
    let gs = vec!["ab", "c", "", "d", "e"];
    assert_eq!(windows_of(&gs, 2, 1), strings(&["abc", "c", "d", "de"]));
    assert_eq!(windows_of(&gs, 3, 0), strings(&["abc", "de"]));
    assert!(windows_of(&Vec::new(), 3, 1).is_empty());
}

#[test]
fn sentences_before_packing() {
    assert_eq!(sentences_of("Hi. Bye! ok?"), strings(&["Hi。", "Bye。", "ok。"]));
    assert_eq!(sentences_of(" ?\u{3000}あ。"), strings(&["あ。"]));
    assert!(sentences_of("").is_empty());
}

#[test]
fn recursive_chunks_lie_in_order_in_the_text() {
    let splitter = TextSplitter::new(4, 2);
    let text = "abcdefgh xy\n\nzz. q";
    let chunks = splitter.recursive_split(text);
    let chars: Vec<char> = text.chars().collect();
    let mut from = 0;
    let mut covered = vec![false; chars.len()];
    for chunk in &chunks {
        let c: Vec<char> = chunk.chars().collect();
        let at = (from..=chars.len() - c.len()).find(|&p| chars[p..p + c.len()] == c[..]).unwrap();
        for p in at..at + c.len() {
            covered[p] = true;
        }
        from = at;
    }
    for (p, ch) in chars.iter().enumerate() {
        assert!(covered[p] || matches!(*ch, '\n' | '。' | '.' | ' '));
    }
}
