use codon_core::editor_jump::{
    anchor_words, collect, collect_for_editor, find_urls_in_range, is_jump_word_char, place_links, resolve,
    visible_word_anchors, AnchorRange, Bias, BufferAnchor, DisplayPoint, EditorPaint, OffsetRange,
    PositionMap,
};
use codon_core::jump::{JumpKind, JumpMode, PAINT_FRESHNESS_NANOS};
use codon_core::words::WordMark;

fn chunks(pieces: &[&str]) -> Vec<String> {
    pieces.iter().map(|piece| piece.to_string()).collect()
}

fn range_from(start: usize, pieces: &[&str]) -> OffsetRange {
    let len: usize = pieces.iter().map(|piece| piece.len()).sum();
    OffsetRange { start, end: start + len }
}

fn offsets(ranges: &[AnchorRange]) -> Vec<(usize, usize)> {
    ranges.iter().map(|range| (range.start.offset, range.end.offset)).collect()
}

#[test]
fn is_jump_word_char_excludes_punctuation() {
    assert!(is_jump_word_char('a'));
    assert!(is_jump_word_char('Z'));
    assert!(is_jump_word_char('0'));
    assert!(is_jump_word_char('_'));
    assert!(!is_jump_word_char(' '));
    assert!(!is_jump_word_char('.'));
    assert!(!is_jump_word_char('-'));
}

#[test]
fn word_characters_are_letters_numbers_and_underscores() {
    for code in 0..=0x10ffffu32 {
        if let Some(ch) = char::from_u32(code) {
            assert_eq!(is_jump_word_char(ch), ch == '_' || ch.is_alphanumeric(), "{:x}", code);
        }
    }
}

#[test]
fn words_are_found_across_chunks() {
    let pieces = ["fo", "o b bä", "r-x_1"];
    let words = visible_word_anchors(&chunks(&pieces), range_from(100, &pieces));
    assert_eq!(offsets(&words), vec![(100, 103), (106, 110), (111, 114)]);
    assert_eq!(words[0].start.bias, Bias::Right);
    assert_eq!(words[0].end.bias, Bias::Right);
}

#[test]
fn an_empty_range_has_no_words_or_urls() {
    let empty = OffsetRange { start: 7, end: 7 };
    let turned = OffsetRange { start: 9, end: 7 };
    let text = chunks(&["words http://a.b"]);
    assert!(visible_word_anchors(&text, empty).is_empty());
    assert!(visible_word_anchors(&text, turned).is_empty());
    assert!(find_urls_in_range(&text, empty).is_empty());
}

#[test]
fn urls_are_found_across_chunks() {
    let pieces = ["é htt", "ps://exa", "mple.org/x, me@example.org"];
    let urls = find_urls_in_range(&chunks(&pieces), range_from(10, &pieces));
    assert_eq!(urls.len(), 1);
    assert_eq!(urls[0].url, "https://example.org/x");
    assert_eq!(
        urls[0].range,
        AnchorRange {
            start: BufferAnchor { offset: 13, bias: Bias::Left },
            end: BufferAnchor { offset: 34, bias: Bias::Right },
        }
    );
}

#[test]
fn links_are_placed_in_the_buffer() {
    let placed = place_links(&vec![(1, 4, "a:b".to_string())], 20);
    assert_eq!(placed[0].range.start.offset, 21);
    assert_eq!(placed[0].range.end.offset, 24);
    assert_eq!(placed[0].url, "a:b");
}

fn position_map(pieces: &[&str]) -> PositionMap {
    PositionMap {
        first_row: 5,
        end_row: 8,
        line_count: 2,
        range: range_from(0, pieces),
        chunks: chunks(pieces),
    }
}

fn row_of(anchor: &BufferAnchor) -> DisplayPoint {
    DisplayPoint { row: 4 + anchor.offset as u32 / 10, column: anchor.offset as u32 % 10 }
}

#[test]
fn only_what_is_on_the_screen_is_offered() {
    let text = "one.......two.......three.....four......five......";
    let map = position_map(&[text]);
    let words = visible_word_anchors(&map.chunks, map.range);
    assert_eq!(words.len(), 5);
    let candidates = resolve(&map, &words, &vec![], &row_of);
    let rows: Vec<(u32, usize)> = candidates
        .iter()
        .map(|candidate| (candidate.place.row, candidate.place.row_ix))
        .collect();
    assert_eq!(rows, vec![(5, 0), (6, 1)]);
    assert_eq!(candidates[0].anchor_range.start.offset, 10);
    assert_eq!(map.place(DisplayPoint { row: 7, column: 0 }), None);
    assert_eq!(map.place(DisplayPoint { row: 8, column: 0 }), None);
    assert_eq!(map.place(DisplayPoint { row: 4, column: 0 }), None);
}

fn paint(age_nanos: Option<u128>) -> EditorPaint {
    EditorPaint {
        is_minimap: false,
        position_map: Some(position_map(&["..........ab https://example.org"])),
        age_nanos,
    }
}

#[test]
fn an_editor_offers_words_and_then_urls() {
    let shown = paint(Some(PAINT_FRESHNESS_NANOS));
    let all = collect_for_editor(&shown, JumpMode::All, &row_of);
    let kinds: Vec<bool> = all
        .iter()
        .map(|candidate| matches!(candidate.kind, JumpKind::Word))
        .collect();
    assert_eq!(kinds, vec![true, true, true, true, false]);
    let urls = collect(Some(&shown), JumpMode::Url, &row_of);
    assert_eq!(urls.len(), 1);
    assert!(matches!(&urls[0].kind, JumpKind::Url(url) if url == "https://example.org"));
    assert_eq!(urls[0].place.column, 3);
}

#[test]
fn an_editor_that_is_not_shown_offers_nothing() {
    assert!(collect(None, JumpMode::All, &row_of).is_empty());
    assert!(collect_for_editor(&paint(None), JumpMode::All, &row_of).is_empty());
    let stale = paint(Some(PAINT_FRESHNESS_NANOS + 1));
    assert!(collect_for_editor(&stale, JumpMode::All, &row_of).is_empty());
    let mut minimap = paint(Some(0));
    minimap.is_minimap = true;
    assert!(collect_for_editor(&minimap, JumpMode::All, &row_of).is_empty());
    let mut unpainted = paint(Some(0));
    unpainted.position_map = None;
    assert!(collect_for_editor(&unpainted, JumpMode::All, &row_of).is_empty());
}

#[test]
fn a_jump_in_an_editor_places_the_cursor_or_copies() {
    let all = collect_for_editor(&paint(Some(0)), JumpMode::All, &row_of);
    let word = all[0].jump(true);
    assert!(word.copy.is_none() && word.focus);
    assert_eq!(word.go_to, Some(BufferAnchor { offset: 10, bias: Bias::Right }));
    let url = all[4].jump(true);
    assert_eq!(url.copy.as_deref(), Some("https://example.org"));
    assert!(!url.focus && url.go_to.is_none());
    let gone = all[4].jump(false);
    assert!(gone.copy.is_none() && !gone.focus && gone.go_to.is_none());
}

#[test]
fn words_are_anchored_at_their_bytes() {
    let marks: Vec<WordMark> = [true, true, false, true]
        .iter()
        .map(|word| WordMark { word: *word, line_start: false })
        .collect();
    let words = anchor_words(&marks, &vec![10, 12, 13, 14, 17]);
    assert_eq!(offsets(&words), vec![(10, 13)]);
    assert_eq!(words[0].end.bias, Bias::Right);
}

#[test]
fn urls_come_in_order_without_overlap() {
    let pieces = ["see https://a.org, http", "://b.org and https://c.org"];
    let urls = find_urls_in_range(&chunks(&pieces), range_from(5, &pieces));
    let found: Vec<&str> = urls.iter().map(|url| url.url.as_str()).collect();
    assert_eq!(found, vec!["https://a.org", "http://b.org", "https://c.org"]);
    for pair in urls.windows(2) {
        assert!(pair[0].range.start.offset < pair[0].range.end.offset);
        assert!(pair[0].range.end.offset <= pair[1].range.start.offset);
    }
}

#[test]
fn the_candidates_are_the_words_and_then_those_of_url_mode() {
    let shown = paint(Some(0));
    let all = collect_for_editor(&shown, JumpMode::All, &row_of);
    let urls = collect_for_editor(&shown, JumpMode::Url, &row_of);
    let words = all.len() - urls.len();
    assert!(all[..words].iter().all(|candidate| matches!(candidate.kind, JumpKind::Word)));
    assert!(urls.iter().all(|candidate| matches!(candidate.kind, JumpKind::Url(_))));
    for (a, b) in all[words..].iter().zip(&urls) {
        assert_eq!(a.anchor_range, b.anchor_range);
        assert_eq!(a.place, b.place);
    }
}
