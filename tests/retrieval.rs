use ragkit::codec::{decode_embedding, encode_embedding, TruncatedEmbedding};
use ragkit::loader::chunk_records;
use ragkit::retrieval::{answer_prompt, assemble_context, check_same_length, VectorLengthError};
use ragkit::splitter::TextSplitter;

#[test]
fn empty_match_set_gives_query_line_only() {
    let context = assemble_context(&Vec::new(), "二十四節気とは");
    assert_eq!(context, "user query: 二十四節気とは\n");
}

#[test]
fn empty_matched_texts_give_query_line_only() {
    let context = assemble_context(&vec![String::new(), String::new()], "q");
    assert_eq!(context, "user query: q\n");
}

#[test]
fn matched_texts_are_concatenated_verbatim() {
    let matched = vec!["first chunk. ".to_string(), "second chunk".to_string()];
    let context = assemble_context(&matched, "what?");
    assert_eq!(context, "context: first chunk. second chunk\nuser query: what?\n");
}

#[test]
fn only_first_record_selected_gives_its_context() {
    let records = ["about north", "about east"];
    let selected = [true, false];
    let matched: Vec<String> = records
        .iter()
        .zip(selected.iter())
        .filter(|(_, s)| **s)
        .map(|(r, _)| r.to_string())
        .collect();
    assert_eq!(assemble_context(&matched, "north?"), "context: about north\nuser query: north?\n");
}

#[test]
fn prompt_prefixes_instruction() {
    assert_eq!(answer_prompt("user query: q\n"), "日本語で、回答して欲しい。\nuser query: q\n");
}

#[test]
fn lengths_must_agree() {
    assert_eq!(check_same_length(3, 3), Ok(()));
    assert_eq!(check_same_length(2, 3), Err(VectorLengthError));
    assert_eq!(check_same_length(0, 1), Err(VectorLengthError));
}

#[test]
fn length_error_message() {
    assert_eq!(VectorLengthError.message(), "vectors must have the same length");
}

#[test]
fn encode_writes_little_endian_words() {
    assert_eq!(encode_embedding(&vec![1, 0x0102_0304]), vec![1, 0, 0, 0, 4, 3, 2, 1]);
    assert_eq!(encode_embedding(&vec![1.0f32.to_bits()]), vec![0, 0, 0x80, 0x3f]);
    assert!(encode_embedding(&Vec::new()).is_empty());
}

#[test]
fn decode_reads_little_endian_words() {
    assert_eq!(decode_embedding(&vec![4, 3, 2, 1, 0xff, 0, 0, 0]), Ok(vec![0x0102_0304, 0xff]));
    assert_eq!(decode_embedding(&Vec::new()), Ok(Vec::new()));
}

#[test]
fn decode_refuses_partial_word() {
    assert_eq!(decode_embedding(&vec![1, 2, 3, 4, 5]), Err(TruncatedEmbedding { len: 5 }));
    assert_eq!(decode_embedding(&vec![1, 2]), Err(TruncatedEmbedding { len: 2 }));
}

#[test]
fn embedding_round_trip() {
    let values = [1.0f32, 0.0, -0.5, 3.25e-3, f32::MAX];
    let words: Vec<u32> = values.iter().map(|v| v.to_bits()).collect();
    let back = decode_embedding(&encode_embedding(&words)).unwrap();
    let floats: Vec<f32> = back.iter().map(|w| f32::from_bits(*w)).collect();
    assert_eq!(floats, values.to_vec());
}

#[test]
fn records_carry_name_and_chunks() {
    let splitter = TextSplitter::new(10, 2);
    let records = chunk_records(&splitter, "notes.txt", "aaa bbb\n\nccc ddd eee fff");
    let contents: Vec<&str> = records.iter().map(|r| r.content.as_str()).collect();
    assert_eq!(contents, vec!["aaa bbb", "ccc ddd", "eee fff"]);
    for r in &records {
        assert_eq!(r.name, "notes.txt");
        assert_eq!(r.embed, "");
    }
}
