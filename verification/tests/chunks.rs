use mini_lm::chunking::{
    pack_sections, split_long_section, split_sections, split_text_into_chunks,
    update_heading_stack, ChunkDraft,
};
use mini_lm::pattern::{heading_line, remove_mark, remove_spaced_mark};

fn section(content: &str, start: i64) -> ChunkDraft {
    ChunkDraft {
        content: content.to_string(),
        heading_path: "見出し".to_string(),
        char_start: start,
        char_end: start + content.chars().count() as i64,
    }
}

fn visible(s: &str) -> String {
    s.chars().filter(|c| !c.is_whitespace()).collect()
}

#[test]
fn chunker_preserves_japanese_regulation_headings() {
    let text = "第1章 総則\n（目的）\nこの規程は目的を定める。\n\n第2条 扶養手当\n扶養手当は条件を満たす職員に支給する。\n";
    let chunks = split_text_into_chunks(text);
    assert!(!chunks.is_empty());
    assert!(chunks.iter().any(|chunk| chunk.heading_path.contains("第2条 扶養手当")));
    assert!(chunks.iter().any(|chunk| chunk.content.contains("扶養手当")));
}

#[test]
fn headings_are_numbered_marks_or_bracketed_titles() {
    assert!(heading_line("第1条 扶養手当"));
    assert!(heading_line("  第十二章 総則  "));
    assert!(heading_line("第１節"));
    assert!(heading_line("（目的）"));
    assert!(heading_line(" （目的） "));
    assert!(!heading_line("（）"));
    assert!(!heading_line("（目的）について"));
    assert!(!heading_line("第条 扶養手当"));
    assert!(!heading_line("第1項 扶養手当"));
    assert!(!heading_line("この規程は目的を定める。"));
    let longest = format!("（{}）", "あ".repeat(60));
    let too_long = format!("（{}）", "あ".repeat(61));
    assert!(heading_line(&longest));
    assert!(!heading_line(&too_long));
}

#[test]
fn numbered_marks_are_removed_from_the_start() {
    assert_eq!(remove_mark("第1条 扶養手当"), " 扶養手当");
    assert_eq!(remove_spaced_mark("第1条 \u{3000}扶養手当"), "扶養手当");
    assert_eq!(remove_mark("扶養手当 第1条"), "扶養手当 第1条");
    assert_eq!(remove_spaced_mark("扶養手当"), "扶養手当");
}

#[test]
fn a_heading_replaces_those_of_its_level_and_below() {
    let mut stack: Vec<String> = Vec::new();
    update_heading_stack(&mut stack, "第1章 給与");
    update_heading_stack(&mut stack, "第1節 手当");
    update_heading_stack(&mut stack, "第1条 扶養手当");
    assert_eq!(stack, vec!["第1章 給与", "第1節 手当", "", "", "第1条 扶養手当"]);
    update_heading_stack(&mut stack, "第2条 通勤手当");
    assert_eq!(stack, vec!["第1章 給与", "第1節 手当", "", "", "第2条 通勤手当"]);
    update_heading_stack(&mut stack, "（支給額）");
    assert_eq!(stack.len(), 6);
    assert_eq!(stack[5], "（支給額）");
    update_heading_stack(&mut stack, "第2章 旅費");
    assert_eq!(stack, vec!["第2章 旅費"]);
}

#[test]
fn sections_quote_the_text_where_they_stand() {
    let text = "第1章 給与\n前文\n第1条 扶養手当\n扶養手当は支給する。\n第2条 通勤手当\n通勤手当は支給する。\n";
    let chars: Vec<char> = text.chars().collect();
    for part in split_sections(text) {
        let quoted: String = chars[part.char_start as usize..part.char_end as usize].iter().collect();
        assert_eq!(quoted.trim(), part.content);
    }
}

#[test]
fn chunks_keep_every_visible_character() {
    let mut text = String::new();
    for i in 1..60 {
        text.push_str(&format!("第{}条 手当{}\n", i, i));
        text.push_str(&"本文です。".repeat(i * 7));
        text.push('\n');
    }
    let chunks = split_text_into_chunks(&text);
    let all: String = chunks.iter().map(|c| visible(&c.content)).collect();
    assert_eq!(all, visible(&text));
    for pair in chunks.windows(2) {
        assert!(pair[0].char_start <= pair[0].char_end);
        assert!(pair[0].char_end <= pair[1].char_start);
    }
}

#[test]
fn long_sections_are_split_between_lines() {
    let line = format!("{}\n", "あ".repeat(99));
    let long = section(&line.repeat(50), 7);
    let parts = split_long_section(&long, 2_400);
    assert!(parts.len() >= 2);
    assert_eq!(parts[0].char_start, 7);
    assert_eq!(parts[0].char_end, parts[1].char_start);
    for part in &parts {
        assert!(part.content.chars().count() <= 2_400);
        assert_eq!(part.heading_path, "見出し");
    }
}

#[test]
fn a_single_line_is_never_split() {
    let long = section(&"あ".repeat(5_000), 0);
    let parts = split_long_section(&long, 2_400);
    assert_eq!(parts.len(), 1);
    assert_eq!(parts[0].content.chars().count(), 5_000);
}

#[test]
fn short_sections_are_packed_together() {
    let packed = pack_sections(&vec![section("一つ目", 0), section("二つ目", 3)]);
    assert_eq!(packed.len(), 1);
    assert_eq!(packed[0].content, "一つ目\n\n二つ目");
    assert_eq!(packed[0].char_start, 0);
    assert_eq!(packed[0].char_end, 6);
    let apart = pack_sections(&vec![section(&"あ".repeat(1_400), 0), section("次", 1_400)]);
    assert_eq!(apart.len(), 2);
    assert!(pack_sections(&vec![]).is_empty());
    let mut late = section("末", 0);
    late.char_start = i64::MAX;
    late.char_end = i64::MAX;
    assert_eq!(pack_sections(&vec![late])[0].char_start, i64::MAX);
}

#[test]
fn blank_groups_stay_open_over_long_sections() {
    let long = "い".repeat(2_500);
    let sections = vec![section(" ", 0), section(&long, 1), section("後", 2_501)];
    let packed = pack_sections(&sections);
    assert_eq!(packed.len(), 2);
    assert_eq!(packed[0].content, long);
    assert_eq!((packed[0].char_start, packed[0].char_end), (1, 2_501));
    assert_eq!(packed[1].content, "後");
    assert_eq!((packed[1].char_start, packed[1].char_end), (0, 2_502));
}

#[test]
fn blank_groups_close_under_another_heading() {
    let mut other = section("後", 2_501);
    other.heading_path = "別の見出し".to_string();
    let packed = pack_sections(&vec![section(" ", 0), section(&"い".repeat(2_500), 1), other]);
    let places: Vec<(i64, i64)> = packed.iter().map(|c| (c.char_start, c.char_end)).collect();
    assert_eq!(places, vec![(1, 2_501), (0, 1), (2_501, 2_502)]);
    assert_eq!(packed[1].content, "");
    assert_eq!(packed[2].content, "後");
    let alone = pack_sections(&vec![section(" ", 0), section(&"い".repeat(2_500), 1)]);
    assert_eq!(alone.len(), 1);
}

#[test]
fn chunks_fill_the_text() {
    let line = "本文の行。\n";
    let text = format!("第1条 甲\n{}\n第2条 乙\n短い。\n第3条 丙\n短い。\n", line.repeat(500));
    let sections = split_sections(&text);
    assert_eq!(sections[0].char_start, 0);
    for pair in sections.windows(2) {
        assert_eq!(pair[0].char_end, pair[1].char_start);
    }
    assert_eq!(sections.last().unwrap().char_end as usize, text.chars().count());
    let pieces = split_long_section(&sections[0], 2_400);
    assert_eq!(pieces[0].char_start, 0);
    for pair in pieces.windows(2) {
        assert_eq!(pair[0].char_end, pair[1].char_start);
    }
    let chunks = split_text_into_chunks(&text);
    assert_eq!(chunks[0].char_start, 0);
    let gaps: Vec<i64> = chunks.windows(2).map(|p| p[1].char_start - p[0].char_end).collect();
    assert_eq!(gaps, vec![0, 2, 0]);
    assert_eq!(chunks.last().unwrap().char_end as usize, text.chars().count());
}

#[test]
fn blank_texts_have_no_chunks() {
    assert!(split_text_into_chunks("").is_empty());
    assert!(split_text_into_chunks(" \n\u{3000}\n").is_empty());
}
