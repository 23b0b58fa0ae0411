use pend::markup::{parse_calibre, FormattingInfo};
use pend::record::LocalBookInfo;

fn run(input: &str, chapter: usize) -> (String, LocalBookInfo) {
    let mut info = LocalBookInfo::default();
    let text = parse_calibre(input, chapter, &mut info);
    (text, info)
}

#[test]
fn heading_line_is_cleaned_and_recorded() {
    let (text, info) = run("<h1>Chapter One</h1>", 3);
    assert_eq!(text.lines().next(), Some("Chapter One"));
    assert_eq!(text, "Chapter One\n");
    assert_eq!(info.get_formatting(3, 0), Some(FormattingInfo::Heading));
    assert_eq!(info.get_formatting(3, 1), None);
    assert_eq!(info.get_formatting(0, 0), None);
}

#[test]
fn empty_line_is_dropped_and_next_line_moves_up() {
    let (text, info) = run("<p></p>\n<b>Bold text</b>", 1);
    assert_eq!(text, "Bold text\n");
    assert_eq!(info.get_formatting(1, 0), Some(FormattingInfo::Bold));
    assert_eq!(info.get_formatting(1, 1), None);
}

#[test]
fn line_numbers_count_surviving_lines_only() {
    let (text, info) = run("<h1>A</h1>\n\n<p></p>\n<i>B</i>\n   \nC\n<h2>D</h2>", 7);
    assert_eq!(text, "A\nB\nC\nD\n");
    assert_eq!(info.get_formatting(7, 0), Some(FormattingInfo::Heading));
    assert_eq!(info.get_formatting(7, 1), Some(FormattingInfo::Italic));
    assert_eq!(info.get_formatting(7, 2), None);
    assert_eq!(info.get_formatting(7, 3), Some(FormattingInfo::Heading2));
    assert_eq!(info.get_formatting(7, 4), None);
    assert_eq!(info.get_formatting(7, 6), None);
}

#[test]
fn every_kind_of_formatting_is_found() {
    let (_, info) = run("<title>t</title>\n<h1>a</h1>\n<h2>b</h2>\n<b>c</b>\n<i>d</i>\ne", 0);
    assert_eq!(info.get_formatting(0, 0), Some(FormattingInfo::Title));
    assert_eq!(info.get_formatting(0, 1), Some(FormattingInfo::Heading));
    assert_eq!(info.get_formatting(0, 2), Some(FormattingInfo::Heading2));
    assert_eq!(info.get_formatting(0, 3), Some(FormattingInfo::Bold));
    assert_eq!(info.get_formatting(0, 4), Some(FormattingInfo::Italic));
    assert_eq!(info.get_formatting(0, 5), None);
}

#[test]
fn image_body_and_paragraph_tags_ask_for_nothing() {
    let (text, info) = run("<img src=\"a.png\"/>picture\n<body class=\"x\">start\n<p>para</p>", 2);
    assert_eq!(text, "picture\nstart\npara\n");
    assert_eq!(info.get_formatting(2, 0), None);
    assert_eq!(info.get_formatting(2, 1), None);
    assert_eq!(info.get_formatting(2, 2), None);
    assert!(info.formatting_info.is_empty());
}

#[test]
fn classification_is_by_substring() {
    let (text, info) = run("<blockquote>q</blockquote>\n<input>field", 1);
    assert_eq!(text, "q\nfield\n");
    assert_eq!(info.get_formatting(1, 0), Some(FormattingInfo::Bold));
    assert_eq!(info.get_formatting(1, 1), Some(FormattingInfo::Italic));
}

#[test]
fn last_tag_that_asks_wins() {
    let (text, info) = run("<b><i>x</i></b>\n<i><b>y</b></i>\n<h1><p>z</p></h1>", 4);
    assert_eq!(text, "x\ny\nz\n");
    assert_eq!(info.get_formatting(4, 0), Some(FormattingInfo::Italic));
    assert_eq!(info.get_formatting(4, 1), Some(FormattingInfo::Bold));
    assert_eq!(info.get_formatting(4, 2), Some(FormattingInfo::Heading));
}

#[test]
fn line_break_tag_becomes_a_visible_marker() {
    let (text, info) = run("one<br/>two", 1);
    assert_eq!(text, "one  [break]  two\n");
    assert_eq!(info.get_formatting(1, 0), None);
    let (text, info) = run("<b>one<br/>two<br/></b>", 1);
    assert_eq!(text, "one  [break]  two  [break]\n");
    assert_eq!(info.get_formatting(1, 0), Some(FormattingInfo::Bold));
    let (text, _) = run("<br/>", 1);
    assert_eq!(text, "[break]\n");
}

#[test]
fn unclosed_tag_is_left_alone() {
    let (text, info) = run("a < b\n<b unclosed\n3 > 2 <i", 1);
    assert_eq!(text, "a < b\n<b unclosed\n3 > 2 <i\n");
    assert!(info.formatting_info.is_empty());
    let (text, info) = run("x <i>y</i> < z", 1);
    assert_eq!(text, "x y < z\n");
    assert_eq!(info.get_formatting(1, 0), Some(FormattingInfo::Italic));
}

#[test]
fn tag_runs_to_the_nearest_closing_bracket() {
    let (text, info) = run("<<b>>x", 1);
    assert_eq!(text, ">x\n");
    assert_eq!(info.get_formatting(1, 0), Some(FormattingInfo::Bold));
    let (text, _) = run("a<b>b>c", 1);
    assert_eq!(text, "ab>c\n");
}

#[test]
fn surrounding_whitespace_is_trimmed() {
    let (text, _) = run("   <p>  hi  there </p> \t\n\u{a0}\u{2003}wide\u{3000}", 1);
    assert_eq!(text, "hi  there\nwide\n");
}

#[test]
fn carriage_returns_end_lines_too() {
    let (text, info) = run("<b>x</b>\r\n\r\n<i>y</i>\r\n", 1);
    assert_eq!(text, "x\ny\n");
    assert_eq!(info.get_formatting(1, 0), Some(FormattingInfo::Bold));
    assert_eq!(info.get_formatting(1, 1), Some(FormattingInfo::Italic));
}

#[test]
fn empty_and_blank_inputs_give_no_text() {
    let (text, info) = run("", 1);
    assert_eq!(text, "");
    assert!(info.formatting_info.is_empty());
    let (text, info) = run("\n\n<p></p>\n  \n<h1></h1>", 1);
    assert_eq!(text, "");
    assert!(info.formatting_info.is_empty());
}

#[test]
fn text_outside_ascii_passes_through() {
    let (text, info) = run("<h2>Über «café»</h2>\n<i>日本語</i>", 9);
    assert_eq!(text, "Über «café»\n日本語\n");
    assert_eq!(info.get_formatting(9, 0), Some(FormattingInfo::Heading2));
    assert_eq!(info.get_formatting(9, 1), Some(FormattingInfo::Italic));
}

#[test]
fn normalizing_twice_with_fresh_records_agrees() {
    let input = "<h1>A</h1>\n\n<b>B</b><br/>\nplain\n<img/>\n<i>C";
    let (first_text, first) = run(input, 5);
    let (second_text, second) = run(input, 5);
    assert_eq!(first_text, second_text);
    for line in 0..8 {
        assert_eq!(first.get_formatting(5, line), second.get_formatting(5, line));
    }
    assert_eq!(first.get_formatting(5, 0), Some(FormattingInfo::Heading));
    assert_eq!(first.get_formatting(5, 1), Some(FormattingInfo::Bold));
}

#[test]
fn normalizing_again_into_the_same_record_changes_nothing() {
    let input = "<h1>A</h1>\n<p></p>\n<b>B</b>\nplain";
    let mut info = LocalBookInfo::default();
    let first = parse_calibre(input, 2, &mut info);
    let second = parse_calibre(input, 2, &mut info);
    assert_eq!(first, second);
    assert_eq!(info.get_formatting(2, 0), Some(FormattingInfo::Heading));
    assert_eq!(info.get_formatting(2, 1), Some(FormattingInfo::Bold));
    assert_eq!(info.get_formatting(2, 2), None);
}

#[test]
fn other_chapters_and_other_state_are_untouched() {
    let mut info = LocalBookInfo::default();
    info.set_formatting(1, 0, FormattingInfo::Title);
    info.set_formatting(2, 9, FormattingInfo::Italic);
    info.chapter = 4;
    let text = parse_calibre("plain\n<b>bold</b>", 2, &mut info);
    assert_eq!(text, "plain\nbold\n");
    assert_eq!(info.get_formatting(1, 0), Some(FormattingInfo::Title));
    assert_eq!(info.get_formatting(2, 9), Some(FormattingInfo::Italic));
    assert_eq!(info.get_formatting(2, 0), None);
    assert_eq!(info.get_formatting(2, 1), Some(FormattingInfo::Bold));
    assert_eq!(info.chapter, 4);
    assert!(info.notes.is_empty());
    assert!(info.highlights.is_empty());
}
