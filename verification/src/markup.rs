//! Chapter markup: tags are read for the formatting they ask for, then
//! stripped, and what is left becomes the clean lines a reader sees.

use crate::index::LineTable;
use crate::record::LocalBookInfo;
use crate::text::{
    append_chars, chars_of, contains, contains_run, copy_range, find_char, find_from,
    lemma_find_char, matches_at, occurs_at, string_of, trim, trimmed,
};
use vstd::prelude::*;

verus! {

/// The formatting a whole display line can carry.
#[derive(Clone, Copy, Debug, PartialEq, Eq, Structural)]
pub enum FormattingInfo {
    Title,
    Heading,
    Heading2,
    Bold,
    Italic,
}

/// The explicit line-break tag, `<br/>`.
pub open spec fn break_tag() -> Seq<char> {
    seq!['<', 'b', 'r', '/', '>']
}

/// What stands for a line-break tag in the clean text: `[break]` with two
/// spaces on either side.
pub open spec fn break_marker() -> Seq<char> {
    seq![' ', ' ', '[', 'b', 'r', 'e', 'a', 'k', ']', ' ', ' ']
}

/// `s` with every line-break tag, taken from the left, replaced by the marker.
pub open spec fn replace_breaks(s: Seq<char>) -> Seq<char>
    decreases s.len(),
{
    if s.len() == 0 {
        s
    } else if occurs_at(s, break_tag(), 0) {
        break_marker() + replace_breaks(s.skip(5))
    } else {
        seq![s[0]] + replace_breaks(s.drop_first())
    }
}

/// Where the first `<` of `s` stands, or `s.len()`.
pub open spec fn tag_open(s: Seq<char>) -> int {
    find_char(s, '<') as int
}

/// Where the first `>` after the first `<` of `s` stands, or `s.len()`.
pub open spec fn tag_close(s: Seq<char>) -> int {
    tag_open(s) + 1 + find_char(s.skip(tag_open(s) + 1), '>')
}

/// Whether `s` holds a tag: a `<` with a `>` somewhere after it. The tag
/// then runs from the first `<` to the nearest `>` behind it.
pub open spec fn has_tag(s: Seq<char>) -> bool {
    tag_open(s) < s.len() && tag_close(s) < s.len()
}

/// `s` without its tags. An unclosed `<` is no tag and stays.
pub open spec fn strip_tags(s: Seq<char>) -> Seq<char>
    decreases s.len(),
{
    if has_tag(s) {
        s.take(tag_open(s)) + strip_tags(s.skip(tag_close(s) + 1))
    } else {
        s
    }
}

/// The tags of `s`, brackets included, from left to right.
pub open spec fn tag_tokens(s: Seq<char>) -> Seq<Seq<char>>
    decreases s.len(),
{
    if has_tag(s) {
        seq![s.subrange(tag_open(s), tag_close(s) + 1)] + tag_tokens(
            s.skip(tag_close(s) + 1),
        )
    } else {
        Seq::empty()
    }
}

/// The formatting one tag asks for. The tests are substring tests and their
/// order decides: an image tag is set aside before `<i` can claim it.
pub open spec fn classify(token: Seq<char>) -> Option<FormattingInfo> {
    if contains_run(token, seq!['<', 'i', 'm', 'g']) {
        None
    } else if contains_run(token, seq!['<', 'b', 'o', 'd', 'y']) {
        None
    } else if contains_run(token, seq!['<', 'p', '>']) {
        None
    } else if contains_run(token, seq!['<', 't', 'i', 't', 'l', 'e']) {
        Some(FormattingInfo::Title)
    } else if contains_run(token, seq!['<', 'h', '1']) {
        Some(FormattingInfo::Heading)
    } else if contains_run(token, seq!['<', 'h', '2']) {
        Some(FormattingInfo::Heading2)
    } else if contains_run(token, seq!['<', 'i']) {
        Some(FormattingInfo::Italic)
    } else if contains_run(token, seq!['<', 'b']) {
        Some(FormattingInfo::Bold)
    } else {
        None
    }
}

/// The formatting of the last tag among `tokens` that asks for any.
pub open spec fn last_kind(tokens: Seq<Seq<char>>) -> Option<FormattingInfo>
    decreases tokens.len(),
{
    if tokens.len() == 0 {
        None
    } else {
        match classify(tokens.last()) {
            Some(k) => Some(k),
            None => last_kind(tokens.drop_last()),
        }
    }
}

/// The text of one raw line as a reader sees it: line-break tags made
/// visible, tags stripped, surrounding whitespace removed.
pub open spec fn clean_line(raw: Seq<char>) -> Seq<char> {
    trimmed(strip_tags(replace_breaks(raw)))
}

/// The formatting one raw line asks for: that of its last tag that asks.
pub open spec fn line_kind(raw: Seq<char>) -> Option<FormattingInfo> {
    last_kind(tag_tokens(replace_breaks(raw)))
}

/// Replaces every `<br/>` of `line` by the visible marker.
pub fn mark_breaks(line: &Vec<char>) -> (out: Vec<char>)
    ensures
        out@ == replace_breaks(line@),
{
    let tag: Vec<char> = vec!['<', 'b', 'r', '/', '>'];
    let marker: Vec<char> = vec![' ', ' ', '[', 'b', 'r', 'e', 'a', 'k', ']', ' ', ' '];
    assert(tag@ =~= break_tag());
    assert(marker@ =~= break_marker());
    let mut out: Vec<char> = Vec::new();
    let mut pos: usize = 0;
    assert(line@.skip(0) =~= line@);
    assert(out@ + replace_breaks(line@) =~= replace_breaks(line@));
    while pos < line.len()
        invariant
            pos <= line.len(),
            tag@ == break_tag(),
            marker@ == break_marker(),
            out@ + replace_breaks(line@.skip(pos as int)) == replace_breaks(line@),
        decreases line.len() - pos,
    {
        let ghost rest = line@.skip(pos as int);
        if matches_at(line, &tag, pos) {
            proof {
                assert(rest.subrange(0, 5) =~= line@.subrange(pos as int, pos + 5));
                assert(occurs_at(rest, break_tag(), 0));
                assert(rest.skip(5) =~= line@.skip(pos + 5));
            }
            append_chars(&mut out, &marker);
            pos += 5;
            assert(out@ + replace_breaks(line@.skip(pos as int)) =~= replace_breaks(line@));
        } else {
            proof {
                if occurs_at(rest, break_tag(), 0) {
                    assert(rest.subrange(0, 5) =~= line@.subrange(pos as int, pos + 5));
                }
                assert(rest.drop_first() =~= line@.skip(pos + 1));
                assert(rest[0] == line@[pos as int]);
            }
            out.push(line[pos]);
            pos += 1;
            assert(out@ + replace_breaks(line@.skip(pos as int)) =~= replace_breaks(line@));
        }
    }
    assert(line@.skip(pos as int).len() == 0);
    assert(out@ =~= replace_breaks(line@));
    out
}

/// The formatting the tag `token` asks for.
pub fn classify_tag(token: &Vec<char>) -> (r: Option<FormattingInfo>)
    ensures
        r == classify(token@),
{
    let img: Vec<char> = vec!['<', 'i', 'm', 'g'];
    let body: Vec<char> = vec!['<', 'b', 'o', 'd', 'y'];
    let para: Vec<char> = vec!['<', 'p', '>'];
    let title: Vec<char> = vec!['<', 't', 'i', 't', 'l', 'e'];
    let h1: Vec<char> = vec!['<', 'h', '1'];
    let h2: Vec<char> = vec!['<', 'h', '2'];
    let italic: Vec<char> = vec!['<', 'i'];
    let bold: Vec<char> = vec!['<', 'b'];
    assert(img@ =~= seq!['<', 'i', 'm', 'g']);
    assert(body@ =~= seq!['<', 'b', 'o', 'd', 'y']);
    assert(para@ =~= seq!['<', 'p', '>']);
    assert(title@ =~= seq!['<', 't', 'i', 't', 'l', 'e']);
    assert(h1@ =~= seq!['<', 'h', '1']);
    assert(h2@ =~= seq!['<', 'h', '2']);
    assert(italic@ =~= seq!['<', 'i']);
    assert(bold@ =~= seq!['<', 'b']);
    if contains(token, &img) {
        None
    } else if contains(token, &body) {
        None
    } else if contains(token, &para) {
        None
    } else if contains(token, &title) {
        Some(FormattingInfo::Title)
    } else if contains(token, &h1) {
        Some(FormattingInfo::Heading)
    } else if contains(token, &h2) {
        Some(FormattingInfo::Heading2)
    } else if contains(token, &italic) {
        Some(FormattingInfo::Italic)
    } else if contains(token, &bold) {
        Some(FormattingInfo::Bold)
    } else {
        None
    }
}

/// Strips the tags of `line` and reports the formatting they ask for.
pub fn scan_line(line: &Vec<char>) -> (r: (Vec<char>, Option<FormattingInfo>))
    ensures
        r.0@ == strip_tags(line@),
        r.1 == last_kind(tag_tokens(line@)),
{
    let mut out: Vec<char> = Vec::new();
    let mut kind: Option<FormattingInfo> = None;
    let mut pos: usize = 0;
    let ghost mut seen: Seq<Seq<char>> = Seq::empty();
    assert(line@.skip(0) =~= line@);
    assert(out@ + strip_tags(line@) =~= strip_tags(line@));
    assert(seen + tag_tokens(line@) =~= tag_tokens(line@));
    loop
        invariant
            pos <= line.len(),
            out@ + strip_tags(line@.skip(pos as int)) == strip_tags(line@),
            seen + tag_tokens(line@.skip(pos as int)) == tag_tokens(line@),
            kind == last_kind(seen),
        decreases line.len() - pos,
    {
        let ghost rest = line@.skip(pos as int);
        let open = find_from(line, pos, '<');
        let close = if open < line.len() {
            find_from(line, open + 1, '>')
        } else {
            open
        };
        proof {
            assert(open - pos == tag_open(rest));
            if open < line.len() {
                assert(rest.skip(tag_open(rest) + 1) =~= line@.skip(open + 1));
                assert(close - pos == tag_close(rest));
            }
        }
        if close >= line.len() {
            assert(!has_tag(rest));
            let tail = copy_range(line, pos, line.len());
            append_chars(&mut out, &tail);
            proof {
                assert(tail@ =~= rest);
                assert(seen + Seq::<Seq<char>>::empty() =~= seen);
            }
            return (out, kind);
        }
        assert(has_tag(rest));
        let token = copy_range(line, open, close + 1);
        let lead = copy_range(line, pos, open);
        let ghost before = out@;
        append_chars(&mut out, &lead);
        let found = classify_tag(&token);
        proof {
            assert(lead@ =~= rest.take(tag_open(rest)));
            assert(token@ =~= rest.subrange(tag_open(rest), tag_close(rest) + 1));
            assert(rest.skip(tag_close(rest) + 1) =~= line@.skip(close + 1));
            let next = seen.push(token@);
            assert(next.last() == token@);
            assert(next.drop_last() =~= seen);
            assert(next + tag_tokens(line@.skip(close + 1)) =~= seen + tag_tokens(rest));
            assert(out@ + strip_tags(line@.skip(close + 1)) =~= before + strip_tags(rest));
            seen = next;
        }
        kind =
        match found {
            Some(k) => Some(k),
            None => kind,
        };
        pos = close + 1;
    }
}

/// The raw lines of `text`: the runs between its newline characters. A text
/// that ends in a newline has an empty last line.
pub open spec fn split_lines(text: Seq<char>) -> Seq<Seq<char>>
    decreases text.len(),
{
    if text.len() == 0 {
        seq![Seq::empty()]
    } else {
        let before = split_lines(text.drop_last());
        if text.last() == '\n' {
            before.push(Seq::empty())
        } else {
            before.update(before.len() - 1, before.last().push(text.last()))
        }
    }
}

/// The raw lines that survive: those whose clean text is not empty.
pub open spec fn kept_lines(lines: Seq<Seq<char>>) -> Seq<Seq<char>>
    decreases lines.len(),
{
    if lines.len() == 0 {
        Seq::empty()
    } else if clean_line(lines.last()).len() > 0 {
        kept_lines(lines.drop_last()).push(lines.last())
    } else {
        kept_lines(lines.drop_last())
    }
}

/// The clean text of `lines`: the clean line of each, followed by a newline.
pub open spec fn joined(lines: Seq<Seq<char>>) -> Seq<char>
    decreases lines.len(),
{
    if lines.len() == 0 {
        Seq::empty()
    } else {
        joined(lines.drop_last()) + clean_line(lines.last()) + seq!['\n']
    }
}

/// The clean text of a chapter: its surviving lines, cleaned and joined.
pub open spec fn clean_text(raw: Seq<char>) -> Seq<char> {
    joined(kept_lines(split_lines(raw)))
}

/// Whether the output line `c` of `chapter` gets a formatting entry.
pub open spec fn is_formatted(kept: Seq<Seq<char>>, chapter: int, c: (int, int)) -> bool {
    c.0 == chapter && 0 <= c.1 < kept.len() && line_kind(kept[c.1]) is Some
}

/// The formatting table after a chapter whose surviving lines are `kept`:
/// output line `j` is formatted as `kept[j]` asks, and every other entry is
/// as it was.
pub open spec fn formatted(
    table: Map<(int, int), FormattingInfo>,
    chapter: int,
    kept: Seq<Seq<char>>,
) -> Map<(int, int), FormattingInfo> {
    Map::new(
        |c: (int, int)| is_formatted(kept, chapter, c) || table.contains_key(c),
        |c: (int, int)|
            if is_formatted(kept, chapter, c) {
                line_kind(kept[c.1])->0
            } else {
                table[c]
            },
    )
}

/// The formatting table after normalizing the chapter text `raw`.
pub open spec fn formatted_by(
    table: Map<(int, int), FormattingInfo>,
    chapter: int,
    raw: Seq<char>,
) -> Map<(int, int), FormattingInfo> {
    formatted(table, chapter, kept_lines(split_lines(raw)))
}

/// A text always has at least one line.
pub proof fn lemma_split_lines_nonempty(text: Seq<char>)
    ensures
        split_lines(text).len() > 0,
    decreases text.len(),
{
    if text.len() > 0 {
        lemma_split_lines_nonempty(text.drop_last());
    }
}

/// Reading on through newline-free characters only grows the last line.
pub proof fn lemma_split_lines_grow(text: Seq<char>, a: int, b: int)
    requires
        0 <= a <= b <= text.len(),
        forall|k: int| a <= k < b ==> text[k] != '\n',
    ensures
        split_lines(text.take(a)).len() > 0,
        split_lines(text.take(b)) == split_lines(text.take(a)).drop_last().push(
            split_lines(text.take(a)).last() + text.subrange(a, b),
        ),
    decreases b - a,
{
    let head = split_lines(text.take(a));
    lemma_split_lines_nonempty(text.take(a));
    if a == b {
        assert(head.last() + text.subrange(a, b) =~= head.last());
        assert(head.drop_last().push(head.last()) =~= head);
    } else {
        lemma_split_lines_grow(text, a, b - 1);
        let mid = split_lines(text.take(b - 1));
        assert(text.take(b).drop_last() =~= text.take(b - 1));
        assert(text.take(b).last() == text[b - 1]);
        assert(head.last() + text.subrange(a, b) =~= (head.last() + text.subrange(a, b - 1)).push(
            text[b - 1],
        ));
        assert(split_lines(text.take(b)) =~= head.drop_last().push(
            head.last() + text.subrange(a, b),
        ));
    }
}

/// No more lines survive than there are.
pub proof fn lemma_kept_lines_len(lines: Seq<Seq<char>>)
    ensures
        kept_lines(lines).len() <= lines.len(),
    decreases lines.len(),
{
    if lines.len() > 0 {
        lemma_kept_lines_len(lines.drop_last());
    }
}

/// Turns the chapter text `input` into clean text and records in `table`
/// the formatting of each line that survives.
///
/// A line that is empty once its tags are stripped is dropped, so the
/// coordinates written are those of the clean text: line `j` of the result
/// is entry `(chapter, j)`.
pub fn normalize(input: &Vec<char>, chapter: usize, table: &mut LineTable<FormattingInfo>) -> (out:
    Vec<char>)
    ensures
        out@ == clean_text(input@),
        final(table)@ == formatted_by(old(table)@, chapter as int, input@),
{
    let mut out: Vec<char> = Vec::new();
    let mut start: usize = 0;
    let mut next_line: usize = 0;
    let ghost mut done: Seq<Seq<char>> = Seq::empty();
    proof {
        assert(input@.take(0) =~= Seq::<char>::empty());
        assert(split_lines(input@.take(0)) =~= done.push(Seq::empty()));
        assert(table@ =~= formatted(old(table)@, chapter as int, kept_lines(done)));
    }
    loop
        invariant
            start <= input.len(),
            split_lines(input@.take(start as int)) == done.push(Seq::empty()),
            done.len() <= start,
            next_line == kept_lines(done).len(),
            out@ == joined(kept_lines(done)),
            table@ == formatted(old(table)@, chapter as int, kept_lines(done)),
        decreases input.len() - start,
    {
        let end = find_from(input, start, '\n');
        let raw = copy_range(input, start, end);
        proof {
            lemma_find_char(input@.skip(start as int), '\n');
            assert forall|k: int| start <= k < end implies input@[k] != '\n' by {
                assert(input@[k] == input@.skip(start as int)[k - start]);
            }
            lemma_split_lines_grow(input@, start as int, end as int);
            assert(done.push(Seq::empty()).drop_last() =~= done);
            assert(Seq::<char>::empty() + raw@ =~= raw@);
            assert(split_lines(input@.take(end as int)) == done.push(raw@));
            lemma_kept_lines_len(done);
        }
        let marked = mark_breaks(&raw);
        let (stripped, kind) = scan_line(&marked);
        let clean = trim(&stripped);
        let ghost lines = done.push(raw@);
        let ghost kept_before = kept_lines(done);
        proof {
            assert(lines.last() == raw@);
            assert(lines.drop_last() =~= done);
            assert(clean@ == clean_line(raw@));
            assert(kind == line_kind(raw@));
        }
        let keep = clean.len() > 0;
        if keep {
            match kind {
                Some(k) => {
                    table.set(chapter, next_line, k);
                },
                None => {},
            }
            append_chars(&mut out, &clean);
            out.push('\n');
            proof {
                let kept = kept_before.push(raw@);
                assert(kept_lines(lines) == kept);
                assert(kept.last() == raw@);
                assert(kept.drop_last() =~= kept_before);
                assert(out@ =~= joined(kept));
                assert forall|c: (int, int)| is_formatted(kept, chapter as int, c)
                    == (is_formatted(kept_before, chapter as int, c) || (c == (
                    chapter as int,
                    next_line as int,
                ) && kind is Some)) by {
                    if c.0 == chapter && 0 <= c.1 < kept_before.len() {
                        assert(kept[c.1] == kept_before[c.1]);
                    }
                }
                assert forall|c: (int, int)| is_formatted(kept_before, chapter as int, c)
                    implies kept[c.1] == kept_before[c.1] by {}
                assert(table@ =~= formatted(old(table)@, chapter as int, kept));
            }
        } else {
            assert(kept_lines(lines) == kept_before);
        }
        if end >= input.len() {
            proof {
                assert(input@.take(end as int) =~= input@);
            }
            return out;
        }
        proof {
            let upto = input@.take(end + 1);
            assert(input@[end as int] == '\n');
            assert(upto.drop_last() =~= input@.take(end as int));
            assert(upto.last() == '\n');
            done = lines;
        }
        if keep {
            next_line += 1;
        }
        start = end + 1;
    }
}

/// Turns the chapter markup `input` into the text a reader sees and records
/// in `book_info` the formatting of each of its lines.
///
/// Line `j` of the returned text is entry `(chapter, j)` of the formatting:
/// raw lines that come out empty are dropped and take no line number.
pub fn parse_calibre(input: &str, chapter: usize, book_info: &mut LocalBookInfo) -> (output: String)
    ensures
        output@ == clean_text(input@),
        final(book_info).formatting_info@ == formatted_by(
            old(book_info).formatting_info@,
            chapter as int,
            input@,
        ),
        final(book_info).notes == old(book_info).notes,
        final(book_info).highlights == old(book_info).highlights,
        final(book_info).chapter == old(book_info).chapter,
{
    let chars = chars_of(input);
    let clean = normalize(&chars, chapter, &mut book_info.formatting_info);
    string_of(&clean)
}

/// The number of raw lines before line `r` that come out empty.
pub open spec fn removed_before(lines: Seq<Seq<char>>, r: int) -> int
    decreases r,
{
    if r <= 0 {
        0
    } else if clean_line(lines[r - 1]).len() == 0 {
        removed_before(lines, r - 1) + 1
    } else {
        removed_before(lines, r - 1)
    }
}

/// The lines that survive of two runs of lines are those of the first run,
/// then those of the second.
pub proof fn lemma_kept_lines_concat(a: Seq<Seq<char>>, b: Seq<Seq<char>>)
    ensures
        kept_lines(a + b) == kept_lines(a) + kept_lines(b),
    decreases b.len(),
{
    if b.len() == 0 {
        assert(a + b =~= a);
        assert(kept_lines(a) + kept_lines(b) =~= kept_lines(a));
    } else {
        lemma_kept_lines_concat(a, b.drop_last());
        assert((a + b).drop_last() =~= a + b.drop_last());
        assert((a + b).last() == b.last());
        assert(kept_lines(a + b) =~= kept_lines(a) + kept_lines(b));
    }
}

/// A raw line that comes out empty leaves no trace: the surviving lines, and
/// with them the clean text and every formatting entry, are what they would
/// be without it.
pub proof fn lemma_empty_line_leaves_no_trace(lines: Seq<Seq<char>>, r: int)
    requires
        0 <= r < lines.len(),
        clean_line(lines[r]).len() == 0,
    ensures
        kept_lines(lines) == kept_lines(lines.remove(r)),
        joined(kept_lines(lines)) == joined(kept_lines(lines.remove(r))),
        forall|table: Map<(int, int), FormattingInfo>, chapter: int| #[trigger]
            formatted(table, chapter, kept_lines(lines)) == formatted(
                table,
                chapter,
                kept_lines(lines.remove(r)),
            ),
{
    let head = lines.take(r);
    let one = seq![lines[r]];
    let tail = lines.skip(r + 1);
    assert(lines =~= head + one + tail);
    assert(lines.remove(r) =~= head + tail);
    lemma_kept_lines_concat(head + one, tail);
    lemma_kept_lines_concat(head, one);
    lemma_kept_lines_concat(head, tail);
    assert(one.drop_last() =~= Seq::<Seq<char>>::empty());
    assert(one.last() == lines[r]);
    assert(kept_lines(one.drop_last()) =~= Seq::<Seq<char>>::empty());
    assert(kept_lines(one) =~= Seq::<Seq<char>>::empty());
    assert(kept_lines(head) + kept_lines(one) =~= kept_lines(head));
}

/// A raw line that survives comes out at its raw index less the number of
/// lines dropped before it, and is formatted under that line number.
pub proof fn lemma_output_line_number(lines: Seq<Seq<char>>, r: int)
    requires
        0 <= r < lines.len(),
        clean_line(lines[r]).len() > 0,
    ensures
        0 <= removed_before(lines, r) <= r,
        kept_lines(lines.take(r)).len() == r - removed_before(lines, r),
        r - removed_before(lines, r) < kept_lines(lines).len(),
        kept_lines(lines)[r - removed_before(lines, r)] == lines[r],
        forall|table: Map<(int, int), FormattingInfo>, chapter: int|
            line_kind(lines[r]) is Some ==> (#[trigger] formatted(
                table,
                chapter,
                kept_lines(lines),
            )).contains_key((chapter, r - removed_before(lines, r))) && formatted(
                table,
                chapter,
                kept_lines(lines),
            )[(chapter, r - removed_before(lines, r))] == line_kind(lines[r])->0,
{
    lemma_removed_before(lines, r);
    let upto = lines.take(r + 1);
    assert(lines =~= upto + lines.skip(r + 1));
    lemma_kept_lines_concat(upto, lines.skip(r + 1));
    assert(upto.drop_last() =~= lines.take(r));
    assert(upto.last() == lines[r]);
    let j = r - removed_before(lines, r);
    assert(kept_lines(upto)[j] == lines[r]);
    assert(kept_lines(lines)[j] == lines[r]);
    assert forall|table: Map<(int, int), FormattingInfo>, chapter: int|
        line_kind(lines[r]) is Some implies (#[trigger] formatted(
        table,
        chapter,
        kept_lines(lines),
    )).contains_key((chapter, j)) && formatted(table, chapter, kept_lines(lines))[(chapter, j)]
        == line_kind(lines[r])->0 by {
        assert(is_formatted(kept_lines(lines), chapter, (chapter, j)));
    }
}

/// Of the first `r` raw lines, each either survives or counts as removed.
pub proof fn lemma_removed_before(lines: Seq<Seq<char>>, r: int)
    requires
        0 <= r <= lines.len(),
    ensures
        0 <= removed_before(lines, r) <= r,
        kept_lines(lines.take(r)).len() == r - removed_before(lines, r),
    decreases r,
{
    if r > 0 {
        lemma_removed_before(lines, r - 1);
        let upto = lines.take(r);
        assert(upto.drop_last() =~= lines.take(r - 1));
        assert(upto.last() == lines[r - 1]);
    }
}

/// Normalizing a chapter again changes nothing: the table it leaves is the
/// table it would leave on a second run.
pub proof fn lemma_normalize_again(
    table: Map<(int, int), FormattingInfo>,
    chapter: int,
    raw: Seq<char>,
)
    ensures
        formatted_by(formatted_by(table, chapter, raw), chapter, raw) == formatted_by(
            table,
            chapter,
            raw,
        ),
{
    assert(formatted_by(formatted_by(table, chapter, raw), chapter, raw) =~= formatted_by(
        table,
        chapter,
        raw,
    ));
}

/// Two fresh tables hold the same entries after normalizing the same text:
/// one for each surviving line that asks for formatting, and no other.
pub proof fn lemma_normalize_fresh(
    first: Map<(int, int), FormattingInfo>,
    second: Map<(int, int), FormattingInfo>,
    chapter: int,
    raw: Seq<char>,
)
    requires
        first == Map::<(int, int), FormattingInfo>::empty(),
        second == Map::<(int, int), FormattingInfo>::empty(),
    ensures
        formatted_by(first, chapter, raw) == formatted_by(second, chapter, raw),
        forall|c: (int, int)|
            formatted_by(first, chapter, raw).contains_key(c) <==> is_formatted(
                kept_lines(split_lines(raw)),
                chapter,
                c,
            ),
{
}

} // verus!
