use pend::markup::{classify_tag, mark_breaks, parse_calibre, scan_line, FormattingInfo};
use pend::record::LocalBookInfo;
use pend::text::{chars_of, contains, trim};
use regex::Regex;

const LINES: [&str; 40] = [
    "",
    "plain",
    "<",
    ">",
    "<>",
    "<><>",
    "><",
    "> <",
    "a<b",
    "a>b",
    "a>b<c>d",
    "<<b>>",
    "<<<>>>",
    "<a<b>c>",
    "x<y>z<w",
    "<b>multiple</b> and <i>tags</i>",
    "<i>é</i>",
    "<\u{e9}\u{4e2d}>after",
    "<a\rb>tail",
    "<a\tb> tail ",
    "<img src=\"x\"/>",
    "<img <i>",
    "<body><b>",
    "<p>",
    "<p >",
    "</p>",
    "<title>",
    "<h1 class=\"c\">Head</h1>",
    "<h2>",
    "<h3>",
    "<input>",
    "<blockquote>",
    "<span><b>bold</b></span>",
    "text <",
    "text > more < again >",
    "<b>one</b><i>two</i><h1>three</h1>",
    "  <p>  spaced  </p>  ",
    "<p></p>",
    "a  [break]  b",
    "<<i>",
];

fn text(chars: &[char]) -> String {
    chars.iter().collect()
}

fn last_kind(rx: &Regex, line: &str) -> Option<FormattingInfo> {
    let mut kind = None;
    for found in rx.find_iter(line) {
        if let Some(k) = classify_tag(&chars_of(found.as_str())) {
            kind = Some(k);
        }
    }
    kind
}

#[test]
fn stripping_agrees_with_the_shortest_match_pattern() {
    let rx = Regex::new(r"<(.*?)>").unwrap();
    for line in LINES {
        let (stripped, kind) = scan_line(&chars_of(line));
        assert_eq!(text(&stripped), rx.replace_all(line, ""), "stripping {:?}", line);
        assert_eq!(kind, last_kind(&rx, line), "formatting of {:?}", line);
    }
}

#[test]
fn marking_breaks_agrees_with_replace() {
    for line in [
        "",
        "<br/>",
        "<br/><br/>",
        "a<br/>b<br/>c",
        "<br/",
        "br/>",
        "<<br/>>",
        "<br/<br/>",
        "<br /><br/>",
        "é<br/>中<br/>",
    ] {
        let marked = mark_breaks(&chars_of(line));
        assert_eq!(text(&marked), line.replace("<br/>", "  [break]  "), "marking {:?}", line);
    }
}

#[test]
fn trimming_agrees_with_trim() {
    for line in [
        "",
        " ",
        " \t\r\n ",
        "a",
        " a",
        "a ",
        "  a  b  ",
        "\u{a0}a\u{2003}",
        "\u{3000}\u{2028}x y\u{85}\u{1680}",
        "\u{200b}zero width stays\u{200b}",
        "\u{feff}mark",
        "_ _",
    ] {
        assert_eq!(text(&trim(&chars_of(line))), line.trim(), "trimming {:?}", line);
    }
}

#[test]
fn containment_agrees_with_contains() {
    let hays = ["", "a", "<img", "x<imgy", "<im", "<i<im<img", "aaa", "ab", "<p>", "é<b"];
    let needles = ["", "a", "<img", "<i", "aa", "aaaa", "b", "<p>", "<b", "é"];
    for hay in hays {
        for needle in needles {
            assert_eq!(
                contains(&chars_of(hay), &chars_of(needle)),
                hay.contains(needle),
                "{:?} in {:?}",
                needle,
                hay
            );
        }
    }
}

fn by_the_pattern(input: &str) -> (String, Vec<Option<FormattingInfo>>) {
    let rx = Regex::new(r"<(.*?)>").unwrap();
    let mut output = String::new();
    let mut kinds = Vec::new();
    for line in input.lines() {
        let line = line.replace("<br/>", "  [break]  ");
        let processed = rx.replace_all(&line, "");
        let processed_line = processed.trim();
        if !processed_line.is_empty() {
            kinds.push(last_kind(&rx, &line));
            output.push_str(processed_line);
            output.push('\n');
        }
    }
    (output, kinds)
}

#[test]
fn chapters_agree_with_line_by_line_pattern_matching() {
    let mut chapters: Vec<String> = vec![
        LINES.join("\n"),
        LINES.join("\r\n"),
        LINES.join("\n\n"),
        LINES.join("<br/>\n"),
        format!("{}\n", LINES.join("\n")),
        "\n".to_string(),
        "\r\n".to_string(),
        "last line ends in a return\r".to_string(),
        "<b>\r".to_string(),
        "a\n\nb\n \n<p></p>\nc\n".to_string(),
    ];
    let mut reversed: Vec<&str> = LINES.to_vec();
    reversed.reverse();
    chapters.push(reversed.join("\n"));
    for chapter in chapters {
        let mut info = LocalBookInfo::default();
        let text = parse_calibre(&chapter, 6, &mut info);
        let (expected, kinds) = by_the_pattern(&chapter);
        assert_eq!(text, expected, "text of {:?}", chapter);
        for (line, kind) in kinds.iter().enumerate() {
            assert_eq!(info.get_formatting(6, line), *kind, "line {} of {:?}", line, chapter);
        }
        assert_eq!(info.get_formatting(6, kinds.len()), None);
        let entries = info.formatting_info.entries();
        assert_eq!(entries.len(), kinds.iter().filter(|k| k.is_some()).count());
    }
}
