use codon_core::jump::{JumpKind, JumpMode, PAINT_FRESHNESS_NANOS};
use codon_core::terminal_jump::{
    collect, collect_inner, find_visible_urls, is_word_char, make_candidates, url_hits,
    visible_text_of, walk_visible_word_tokens, word_tokens, GridPoint, IndexedCell, TerminalPaint, WordToken,
};
use codon_core::words::{word_runs, WordMark, WordRun};

fn make_cell(line: i32, column: usize, ch: char) -> IndexedCell {
    IndexedCell {
        point: GridPoint { line, column },
        ch,
    }
}

fn row(line: i32, text: &str) -> Vec<IndexedCell> {
    text.chars()
        .enumerate()
        .map(|(column, ch)| make_cell(line, column, ch))
        .collect()
}

#[test]
fn walk_visible_word_tokens_splits_on_whitespace() {
    let cells = vec![
        make_cell(0, 0, 'h'),
        make_cell(0, 1, 'i'),
        make_cell(0, 2, ' '),
        make_cell(0, 3, 'y'),
        make_cell(0, 4, 'o'),
    ];
    let tokens = walk_visible_word_tokens(&cells);
    assert_eq!(tokens.len(), 2);
    assert_eq!(tokens[0].start.column, 0);
    assert_eq!(tokens[1].start.column, 3);
}

#[test]
fn walk_visible_word_tokens_skips_single_char_words() {
    let cells = vec![
        make_cell(0, 0, 'a'),
        make_cell(0, 1, ' '),
        make_cell(0, 2, 'b'),
        make_cell(0, 3, 'c'),
    ];
    let tokens = walk_visible_word_tokens(&cells);
    assert_eq!(tokens.len(), 1);
    assert_eq!(tokens[0].start.column, 2);
}

#[test]
fn walk_visible_word_tokens_splits_on_line_change() {
    let cells = vec![
        make_cell(0, 0, 'a'),
        make_cell(0, 1, 'b'),
        make_cell(1, 0, 'c'),
        make_cell(1, 1, 'd'),
    ];
    let tokens = walk_visible_word_tokens(&cells);
    assert_eq!(tokens.len(), 2);
    assert_eq!(tokens[0].start.line, 0);
    assert_eq!(tokens[1].start.line, 1);
}

#[test]
fn find_visible_urls_matches_https() {
    let url = "https://example.com";
    let cells: Vec<IndexedCell> = url
        .char_indices()
        .map(|(i, c)| make_cell(0, i, c))
        .collect();
    let hits = find_visible_urls(&cells, 80);
    assert_eq!(hits.len(), 1);
    assert_eq!(hits[0].url, url);
    assert_eq!(hits[0].start.column, 0);
}

#[test]
fn find_visible_urls_ignores_plain_text() {
    let cells: Vec<IndexedCell> = "hello world"
        .char_indices()
        .map(|(i, c)| make_cell(0, i, c))
        .collect();
    let hits = find_visible_urls(&cells, 80);
    assert!(hits.is_empty());
}

#[test]
fn word_characters_are_neither_whitespace_nor_control() {
    for code in 0..=0x10ffffu32 {
        if let Some(ch) = char::from_u32(code) {
            let expected = !ch.is_whitespace() && !ch.is_control() && ch != '\0';
            assert_eq!(is_word_char(ch), expected, "{:x}", code);
        }
    }
}

#[test]
fn words_do_not_reach_across_lines_or_empty_cells() {
    let mut cells = row(0, "a");
    cells.extend(row(1, "b c\0d!"));
    let tokens = walk_visible_word_tokens(&cells);
    assert_eq!(tokens, vec![WordToken { start: GridPoint { line: 1, column: 4 } }]);
    assert!(walk_visible_word_tokens(&vec![]).is_empty());
}

#[test]
fn runs_are_maximal_and_in_order() {
    let marks: Vec<WordMark> = "ab c de-fgh"
        .chars()
        .map(|ch| WordMark { word: ch.is_alphanumeric(), line_start: ch == 'g' })
        .collect();
    let runs = word_runs(&marks);
    assert_eq!(
        runs,
        vec![
            WordRun { start: 0, end: 2 },
            WordRun { start: 5, end: 7 },
            WordRun { start: 9, end: 11 },
        ]
    );
}

#[test]
fn the_visible_text_has_line_breaks_and_padding() {
    let cells = vec![
        make_cell(-1, 2, 'x'),
        make_cell(-1, 5, '\0'),
        make_cell(0, 1, 'é'),
    ];
    let (text, points) = visible_text_of(&cells, 80);
    assert_eq!(text, "  x   \n é");
    assert_eq!(points.len(), text.len());
    assert_eq!(points[0], GridPoint { line: -1, column: 0 });
    assert_eq!(points[2], GridPoint { line: -1, column: 2 });
    assert_eq!(points[6], GridPoint { line: 0, column: 0 });
    assert_eq!(points[9], GridPoint { line: 0, column: 1 });
    let (narrow, _) = visible_text_of(&cells, 0);
    assert_eq!(narrow, " x \n é");
}

#[test]
fn urls_start_where_their_first_cell_is() {
    let mut cells = row(0, "é <http://a.b/c> x");
    cells.extend(row(1, "mailto:me@x.y"));
    let hits = find_visible_urls(&cells, 80);
    assert_eq!(hits.len(), 2);
    assert_eq!(hits[0].url, "http://a.b/c");
    assert_eq!(hits[0].start, GridPoint { line: 0, column: 3 });
    assert_eq!(hits[1].url, "mailto:me@x.y");
    assert_eq!(hits[1].start, GridPoint { line: 1, column: 0 });
    assert!(find_visible_urls(&vec![], 80).is_empty());
}

#[test]
fn urls_do_not_reach_across_lines() {
    let mut cells = row(0, "see https://a.b");
    cells.extend(row(1, "c.d/e"));
    let hits = find_visible_urls(&cells, 15);
    assert_eq!(hits.len(), 1);
    assert_eq!(hits[0].url, "https://a.b");
}

#[test]
fn matches_past_the_end_make_no_hit() {
    let points = vec![GridPoint { line: 4, column: 7 }];
    let matches = vec![(0, "news:x".to_string()), (1, "ssh:y".to_string())];
    let hits = url_hits(&matches, &points);
    assert_eq!(hits.len(), 1);
    assert_eq!(hits[0].url, "news:x");
    assert_eq!(hits[0].start, points[0]);
}

fn paint(text: &str, age_nanos: Option<u128>, has_area: bool) -> TerminalPaint {
    TerminalPaint { age_nanos, has_area, columns: 80, cells: row(0, text) }
}

#[test]
fn a_terminal_offers_words_and_then_urls() {
    let shown = paint("go ftp://x.y", Some(PAINT_FRESHNESS_NANOS), true);
    let all = collect(Some(&shown), JumpMode::All);
    assert_eq!(all.len(), 3);
    assert!(matches!(all[0].kind, JumpKind::Word));
    assert_eq!(all[1].cell, GridPoint { line: 0, column: 3 });
    assert!(matches!(&all[2].kind, JumpKind::Url(url) if url == "ftp://x.y"));
    let urls = collect_inner(&shown, JumpMode::Url);
    assert_eq!(urls.len(), 1);
    assert!(collect(None, JumpMode::All).is_empty());
    let stale = paint("go", Some(PAINT_FRESHNESS_NANOS + 1), true);
    assert!(collect(Some(&stale), JumpMode::All).is_empty());
    assert!(collect(Some(&paint("go", None, true)), JumpMode::All).is_empty());
    assert!(collect(Some(&paint("go", Some(0), false)), JumpMode::All).is_empty());
}

#[test]
fn a_jump_in_a_terminal_selects_or_copies() {
    let cell = GridPoint { line: 2, column: 5 };
    let hits = url_hits(&vec![(0, "git://x".to_string())], &vec![cell]);
    let candidates = make_candidates(&vec![WordToken { start: cell }], &hits);
    let word = candidates[0].jump(true);
    assert_eq!((word.copy, word.focus, word.go_to), (None, true, Some(cell)));
    let gone = candidates[0].jump(false);
    assert_eq!((gone.copy, gone.focus, gone.go_to), (None, false, None));
    let url = candidates[1].jump(false);
    assert_eq!((url.copy.as_deref(), url.focus), (Some("git://x"), false));
    assert!(candidates[1].jump(true).focus);
    assert_eq!(cell.window_row(), 2);
    assert_eq!(GridPoint { line: -3, column: 0 }.window_row(), 0);
}

#[test]
fn words_start_where_the_marks_say() {
    let mut cells = row(0, "abcd");
    cells.extend(row(1, "ef"));
    let starts = |is_word: &[bool]| -> Vec<(i32, usize)> {
        word_tokens(&cells, &is_word.to_vec())
            .iter()
            .map(|token| (token.start.line, token.start.column))
            .collect()
    };
    assert_eq!(starts(&[true; 6]), vec![(0, 0), (1, 0)]);
    assert_eq!(starts(&[true, false, true, true, true, false]), vec![(0, 2)]);
    assert!(starts(&[false; 6]).is_empty());
}

#[test]
fn urls_come_in_order_and_hold_no_blank() {
    let mut cells = row(0, "é https://a.b/ü x ssh:c");
    cells.extend(row(1, "git://d"));
    cells.push(make_cell(1, 9, 'e'));
    let hits = find_visible_urls(&cells, 80);
    let found: Vec<(i32, usize, &str)> = hits
        .iter()
        .map(|hit| (hit.start.line, hit.start.column, hit.url.as_str()))
        .collect();
    assert_eq!(
        found,
        vec![(0, 2, "https://a.b/ü"), (0, 18, "ssh:c"), (1, 0, "git://d")]
    );
    for hit in &hits {
        let first = cells.iter().position(|cell| cell.point == hit.start).unwrap();
        for (k, ch) in hit.url.chars().enumerate() {
            assert_eq!(cells[first + k].ch, ch);
            assert_eq!(cells[first + k].point.column, hit.start.column + k);
            assert!(!ch.is_whitespace() && !ch.is_control());
        }
    }
}
