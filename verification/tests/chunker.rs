use rag_service::chunker::{char_len, split, ChunkConfig};

fn cfg() -> ChunkConfig {
    ChunkConfig::new(20, 5)
}

const TEXT: &str = "第一句。第二句。第三句。第四句。第五句。第六句。第七句。第八句。";

#[test]
fn short_text_not_split() {
    let chunks = split("短文本。", &cfg());
    assert_eq!(chunks.len(), 1);
    assert_eq!(chunks[0], "短文本。");
}

#[test]
fn empty_text_no_chunks() {
    assert!(split("", &cfg()).is_empty());
}

#[test]
fn chunks_respect_max_chars() {
    let text = "第一句。第二句。第三句。第四句。第五句。第六句。第七句。第八句。";
    let chunks = split(text, &cfg());
    assert!(chunks.len() >= 2);
    for c in &chunks {
        assert!(char_len(c) <= 20, "块超长: {c:?}");
    }
}

#[test]
fn chunks_have_overlap() {
    let text = "第一句。第二句。第三句。第四句。第五句。第六句。第七句。第八句。";
    let chunks = split(text, &cfg());
    for pair in chunks.windows(2) {
        let prev_tail: String = pair[0].chars().skip(pair[0].chars().count() - 5).collect();
        assert!(pair[1].contains(&prev_tail), "相邻块无重叠");
    }
}

#[test]
fn no_text_lost() {
    let text = "第一句。第二句。第三句。第四句。第五句。第六句。第七句。第八句。";
    let chunks = split(text, &cfg());
    let joined: String = chunks.iter().flat_map(|c| c.chars()).collect();
    let original: Vec<&str> = text.split('。').filter(|s| !s.is_empty()).collect();
    for s in original {
        assert!(joined.contains(s), "丢句: {s}");
    }
}

#[test]
fn long_sentence_hard_split() {
    let long = "这是".repeat(30);
    let chunks = split(&long, &cfg());
    assert!(chunks.len() >= 3);
    for c in &chunks {
        assert!(char_len(c) <= 20);
    }
}

#[test]
fn chunks_end_at_sentences() {
    assert_eq!(
        split(TEXT, &cfg()),
        vec![
            "第一句。第二句。第三句。第四句。第五句。".to_string(),
            "。第五句。第六句。第七句。第八句。".to_string(),
        ]
    );
}

#[test]
fn hard_split_steps_by_window_less_overlap() {
    let chunks = split("abcdefghij", &ChunkConfig::new(4, 1));
    assert_eq!(chunks, vec!["abcd", "defg", "ghij"]);
}

#[test]
fn overlap_as_long_as_window_still_advances() {
    let chunks = split("abcdef", &ChunkConfig::new(3, 9));
    assert_eq!(chunks, vec!["abc", "bcd", "cde", "def"]);
}

#[test]
fn blank_text_is_handled_like_any_other() {
    assert_eq!(split("   \n", &cfg()), vec!["   \n"]);
    assert_eq!(char_len("短文本。"), 4);
}
