use pend::color::{Color, DocumentColors};
use pend::index::LineTable;
use pend::markup::FormattingInfo;
use pend::record::LocalBookInfo;

#[test]
fn toggle_highlight_scenario() {
    let yellow = Color::yellow();
    let red = Color::from_rgb(255, 0, 0);
    let mut info = LocalBookInfo::default();
    info.toggle_highlight(2, 5, yellow);
    assert_eq!(info.get_highlight(2, 5), Some(yellow));
    assert_eq!(info.get_highlight(2, 4), None);
    assert_eq!(info.get_highlight(5, 2), None);
    info.toggle_highlight(2, 5, yellow);
    assert_eq!(info.get_highlight(2, 5), None);
    assert!(info.highlights.is_empty());
    info.toggle_highlight(2, 5, yellow);
    info.toggle_highlight(2, 5, red);
    assert_eq!(info.get_highlight(2, 5), Some(red));
}

#[test]
fn toggling_twice_restores_absence_and_same_color() {
    let yellow = Color::yellow();
    let mut info = LocalBookInfo::default();
    info.toggle_highlight(1, 1, yellow);
    info.toggle_highlight(7, 3, yellow);
    info.toggle_highlight(7, 3, yellow);
    assert_eq!(info.get_highlight(7, 3), None);
    assert_eq!(info.get_highlight(1, 1), Some(yellow));
    info.toggle_highlight(1, 1, yellow);
    info.toggle_highlight(1, 1, yellow);
    assert_eq!(info.get_highlight(1, 1), Some(yellow));
}

#[test]
fn toggling_twice_over_another_color_clears_the_line() {
    let yellow = Color::yellow();
    let red = Color::from_rgb(255, 0, 0);
    let mut info = LocalBookInfo::default();
    info.toggle_highlight(3, 3, red);
    info.toggle_highlight(3, 3, yellow);
    assert_eq!(info.get_highlight(3, 3), Some(yellow));
    info.toggle_highlight(3, 3, yellow);
    assert_eq!(info.get_highlight(3, 3), None);
}

#[test]
fn clear_highlights_removes_all_and_nothing_else() {
    let mut info = LocalBookInfo::default();
    info.toggle_highlight(1, 1, Color::yellow());
    info.toggle_highlight(usize::MAX, usize::MAX, Color::black());
    info.set_formatting(1, 1, FormattingInfo::Bold);
    assert_eq!(info.get_highlight(usize::MAX, usize::MAX), Some(Color::black()));
    info.clear_highlights();
    assert!(info.highlights.is_empty());
    assert_eq!(info.get_highlight(1, 1), None);
    assert_eq!(info.get_formatting(1, 1), Some(FormattingInfo::Bold));
}

#[test]
fn line_table_keeps_coordinates_apart() {
    let mut table: LineTable<u8> = LineTable::new();
    assert!(table.is_empty());
    table.set(0, 1, 10);
    table.set(1, 0, 20);
    table.set(usize::MAX, 0, 30);
    table.set(0, usize::MAX, 40);
    assert_eq!(table.get(0, 1), Some(10));
    assert_eq!(table.get(1, 0), Some(20));
    assert_eq!(table.get(usize::MAX, 0), Some(30));
    assert_eq!(table.get(0, usize::MAX), Some(40));
    assert_eq!(table.get(1, 1), None);
    assert!(table.contains(1, 0));
    assert!(!table.contains(0, 0));
    table.set(0, 1, 11);
    assert_eq!(table.get(0, 1), Some(11));
    table.remove(0, 1);
    assert_eq!(table.get(0, 1), None);
    assert_eq!(table.get(1, 0), Some(20));
    table.remove(5, 5);
    assert!(!table.is_empty());
    table.clear();
    assert!(table.is_empty());
}

#[test]
fn set_formatting_overwrites() {
    let mut info = LocalBookInfo::default();
    info.set_formatting(1, 2, FormattingInfo::Bold);
    info.set_formatting(1, 2, FormattingInfo::Title);
    assert_eq!(info.get_formatting(1, 2), Some(FormattingInfo::Title));
    assert_eq!(info.get_formatting(2, 1), None);
}

#[test]
fn default_colors_and_palette() {
    let theme = DocumentColors::default();
    assert_eq!(theme.highlight_color, Color { r: 255, g: 255, b: 0, a: 255 });
    assert_eq!(theme.text_color, Color { r: 0, g: 0, b: 0, a: 255 });
    assert_eq!(theme.page_color, Color { r: 239, g: 229, b: 213, a: 255 });
    let palette = theme.palette();
    assert_eq!(
        palette,
        vec![
            Color::yellow(),
            Color::from_rgb(255, 150, 138),
            Color::from_rgb(255, 209, 138),
            Color::from_rgb(138, 255, 150),
            Color::from_rgb(150, 138, 255),
        ]
    );
}

#[test]
fn entries_list_every_entry_once() {
    let mut table: LineTable<u8> = LineTable::new();
    assert!(table.entries().is_empty());
    table.set(3, 4, 1);
    table.set(0, 0, 2);
    table.set(usize::MAX, 7, 3);
    table.set(3, 4, 4);
    let mut entries = table.entries();
    entries.sort();
    assert_eq!(entries, vec![(0, 0, 2), (3, 4, 4), (usize::MAX as u64, 7, 3)]);
}

#[test]
fn clearing_a_chapter_leaves_the_others() {
    let mut info = LocalBookInfo::default();
    info.toggle_highlight(1, 0, Color::yellow());
    info.toggle_highlight(1, 9, Color::black());
    info.toggle_highlight(2, 0, Color::yellow());
    info.toggle_highlight(0, 1, Color::black());
    info.set_formatting(1, 0, FormattingInfo::Bold);
    info.clear_chapter_highlights(1);
    assert_eq!(info.get_highlight(1, 0), None);
    assert_eq!(info.get_highlight(1, 9), None);
    assert_eq!(info.get_highlight(2, 0), Some(Color::yellow()));
    assert_eq!(info.get_highlight(0, 1), Some(Color::black()));
    assert_eq!(info.get_formatting(1, 0), Some(FormattingInfo::Bold));
    info.clear_chapter_highlights(7);
    assert_eq!(info.highlights.entries().len(), 2);
    let mut table: LineTable<u8> = LineTable::new();
    table.set(usize::MAX, usize::MAX, 1);
    table.set(usize::MAX, 0, 2);
    table.set(0, usize::MAX, 3);
    table.clear_chapter(usize::MAX);
    assert_eq!(table.entries(), vec![(0, usize::MAX as u64, 3)]);
}
