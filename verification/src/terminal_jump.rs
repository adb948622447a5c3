//! What a jump can go to in the visible grid of a terminal: its words and its URLs.

use vstd::prelude::*;
use vstd::string::*;
use vstd::utf8::*;

use crate::jump;
use crate::jump::EffectModel;
use crate::jump::JumpEffect;
use crate::jump::JumpKind;
use crate::jump::JumpMode;
use crate::jump::KindModel;
use crate::text;
use crate::words;
use crate::words::WordMark;

verus! {

/// What a URL looks like.
pub const URL_REGEX: &'static str =
    r#"(ipfs:|ipns:|magnet:|mailto:|gemini://|gopher://|https://|http://|news:|file://|git://|ssh:|ftp://)[^\u{0000}-\u{001F}\u{007F}-\u{009F}<>"\s{-}\^⟨⟩`']+"#;

/// A cell of the grid; lines above the viewport have negative numbers.
#[derive(Clone, Copy, PartialEq, Eq, Debug, Structural)]
pub struct GridPoint {
    pub line: i32,
    pub column: usize,
}

/// A cell and the character in it.
#[derive(Clone, Copy, PartialEq, Eq, Debug, Structural)]
pub struct IndexedCell {
    pub point: GridPoint,
    pub ch: char,
}

/// Where a word starts.
#[derive(Clone, Copy, PartialEq, Eq, Debug, Structural)]
pub struct WordToken {
    pub start: GridPoint,
}

/// A URL and where it starts.
#[derive(Clone, Debug)]
pub struct UrlHit {
    pub start: GridPoint,
    pub url: String,
}

/// What a [`UrlHit`] holds.
#[verifier::ext_equal]
pub struct UrlHitModel {
    pub start: GridPoint,
    pub url: Seq<char>,
}

impl View for UrlHit {
    type V = UrlHitModel;

    open spec fn view(&self) -> UrlHitModel {
        UrlHitModel { start: self.start, url: self.url@ }
    }
}

/// Whether a character can be part of a word: it is neither whitespace nor a control code.
pub open spec fn word_char(ch: char) -> bool {
    !text::whitespace(ch) && !text::control(ch) && ch != '\0'
}

/// Whether a character can be part of a word.
pub fn is_word_char(ch: char) -> (res: bool)
    ensures
        res == word_char(ch),
{
    !text::is_whitespace(ch) && !text::is_control(ch) && ch != '\0'
}

/// Which cells hold a character that can be part of a word.
pub open spec fn word_cells(cells: Seq<IndexedCell>) -> Seq<bool> {
    cells.map_values(|cell: IndexedCell| word_char(cell.ch))
}

/// What the word scanner needs to know of the cells, where `is_word` tells which of them
/// can be part of a word.
pub open spec fn marks_of(cells: Seq<IndexedCell>, is_word: Seq<bool>) -> Seq<WordMark> {
    Seq::new(
        cells.len(),
        |i: int|
            WordMark {
                word: is_word[i],
                line_start: i == 0 || cells[i - 1].point.line != cells[i].point.line,
            },
    )
}

/// Where the words among the cells start, where `is_word` tells which cells can be part of a
/// word.
pub open spec fn tokens_among(cells: Seq<IndexedCell>, is_word: Seq<bool>) -> Seq<WordToken> {
    words::words(marks_of(cells, is_word)).map_values(
        |word: (int, int)| WordToken { start: cells[word.0].point },
    )
}

/// Where the words among the cells start.
pub open spec fn tokens_of(cells: Seq<IndexedCell>) -> Seq<WordToken> {
    tokens_among(cells, word_cells(cells))
}

/// Returns where each word of two or more characters starts. Words end at whitespace, at
/// control codes and at the end of a line.
pub fn walk_visible_word_tokens(cells: &Vec<IndexedCell>) -> (res: Vec<WordToken>)
    ensures
        res@ == tokens_of(cells@),
{
    let mut is_word: Vec<bool> = Vec::new();
    let mut i: usize = 0;
    while i < cells.len()
        invariant
            i <= cells@.len(),
            is_word@ == word_cells(cells@).take(i as int),
        decreases cells@.len() - i,
    {
        is_word.push(is_word_char(cells[i].ch));
        assert(is_word@ =~= word_cells(cells@).take(i + 1));
        i += 1;
    }
    assert(is_word@ =~= word_cells(cells@));
    word_tokens(cells, &is_word)
}

/// Returns where each word of two or more characters starts, where `is_word` tells which
/// cells can be part of a word.
pub fn word_tokens(cells: &Vec<IndexedCell>, is_word: &Vec<bool>) -> (res: Vec<WordToken>)
    requires
        is_word@.len() == cells@.len(),
    ensures
        res@ == tokens_among(cells@, is_word@),
{
    let mut marks: Vec<WordMark> = Vec::new();
    let mut i: usize = 0;
    while i < cells.len()
        invariant
            i <= cells@.len(),
            is_word@.len() == cells@.len(),
            marks@ == marks_of(cells@, is_word@).take(i as int),
        decreases cells@.len() - i,
    {
        let line_start = i == 0 || cells[i - 1].point.line != cells[i].point.line;
        marks.push(WordMark { word: is_word[i], line_start });
        assert(marks@ =~= marks_of(cells@, is_word@).take(i + 1));
        i += 1;
    }
    assert(marks@ =~= marks_of(cells@, is_word@));
    let runs = words::word_runs(&marks);
    let ghost models = words::words(marks@);
    let mut tokens: Vec<WordToken> = Vec::new();
    let mut k: usize = 0;
    while k < runs.len()
        invariant
            k <= runs@.len(),
            models == words::words(marks_of(cells@, is_word@)),
            marks@.len() == cells@.len(),
            runs@.map_values(|run: words::WordRun| words::run_model(run)) == models,
            forall|j: int|
                0 <= j < runs@.len() ==> (#[trigger] runs@[j]).start < runs@[j].end && runs@[j].end
                    <= marks@.len(),
            tokens@ == tokens_among(cells@, is_word@).take(k as int),
        decreases runs@.len() - k,
    {
        assert(models[k as int] == words::run_model(runs@[k as int]));
        tokens.push(WordToken { start: cells[runs[k].start].point });
        assert(tokens@ =~= tokens_among(cells@, is_word@).take(k + 1));
        k += 1;
    }
    assert(tokens@ =~= tokens_among(cells@, is_word@));
    tokens
}

/// All cells of a word stand on one line and hold characters that can be part of a word.
pub proof fn law_word_stands_on_one_line(cells: Seq<IndexedCell>, start: int, end: int, k: int)
    requires
        words::words(marks_of(cells, word_cells(cells))).contains((start, end)),
        start <= k < end,
    ensures
        0 <= start < end <= cells.len(),
        cells[k].point.line == cells[start].point.line,
        word_char(cells[k].ch),
    decreases k,
{
    let marks = marks_of(cells, word_cells(cells));
    words::law_words_are_the_runs(marks);
    assert(words::is_run(marks, start, end));
    if k > start {
        law_word_stands_on_one_line(cells, start, end, k - 1);
        assert(words::goes_on(marks, k));
    }
}

/// A character of the visible text and the cell it stands for.
#[verifier::ext_equal]
pub struct Glyph {
    pub ch: char,
    pub point: GridPoint,
}

/// Spaces for the columns from `from` to before the cell, as far as the grid is wide.
pub open spec fn padding(from: int, cell: IndexedCell, columns: usize) -> Seq<Glyph>
    decreases cell.point.column as i32 - from,
{
    if from < cell.point.column as i32 && from < columns as i32 {
        seq![
            Glyph { ch: ' ', point: GridPoint { line: cell.point.line, column: from as usize } },
        ] + padding(from + 1, cell, columns)
    } else {
        Seq::empty()
    }
}

/// The glyph of a cell; an empty cell shows a space.
pub open spec fn cell_glyph(cell: IndexedCell) -> Glyph {
    Glyph {
        ch: if cell.ch == '\0' {
            ' '
        } else {
            cell.ch
        },
        point: cell.point,
    }
}

/// What a cell adds to the visible text: a line break where a new line starts with it,
/// spaces for the columns skipped before it, and its own character.
pub open spec fn cell_glyphs(cells: Seq<IndexedCell>, i: int, columns: usize) -> Seq<Glyph> {
    let cell = cells[i];
    if i == 0 {
        padding(0, cell, columns).push(cell_glyph(cell))
    } else if cells[i - 1].point.line != cell.point.line {
        (seq![Glyph { ch: '\n', point: GridPoint { line: cell.point.line, column: 0 } }] + padding(
            0,
            cell,
            columns,
        )).push(cell_glyph(cell))
    } else {
        padding(cells[i - 1].point.column as i32 + 1, cell, columns).push(cell_glyph(cell))
    }
}

/// The visible text of a grid of the given width, with the cell of each character.
pub open spec fn glyphs_of(cells: Seq<IndexedCell>, columns: usize) -> Seq<Glyph>
    decreases cells.len(),
{
    if cells.len() == 0 {
        Seq::empty()
    } else {
        glyphs_of(cells.drop_last(), columns) + cell_glyphs(cells, cells.len() - 1, columns)
    }
}

/// The characters of a visible text.
pub open spec fn text_of(glyphs: Seq<Glyph>) -> Seq<char> {
    glyphs.map_values(|glyph: Glyph| glyph.ch)
}

/// The cell of each byte of a visible text.
pub open spec fn points_of(glyphs: Seq<Glyph>) -> Seq<GridPoint>
    decreases glyphs.len(),
{
    if glyphs.len() == 0 {
        Seq::empty()
    } else {
        points_of(glyphs.drop_last()) + Seq::new(
            text::width(glyphs.last().ch),
            |i: int| glyphs.last().point,
        )
    }
}

/// The width that a grid counts as having.
pub open spec fn at_least_one(columns: usize) -> usize {
    if columns == 0 {
        1
    } else {
        columns
    }
}

/// The visible text of a grid.
pub open spec fn visible_text(cells: Seq<IndexedCell>, columns: usize) -> Seq<char> {
    text_of(glyphs_of(cells, at_least_one(columns)))
}

/// The cell of each byte of the visible text of a grid.
pub open spec fn visible_points(cells: Seq<IndexedCell>, columns: usize) -> Seq<GridPoint> {
    points_of(glyphs_of(cells, at_least_one(columns)))
}

/// The hits that matches make, where `points` names the cell of each byte.
pub open spec fn hits_of(matches: Seq<(usize, Seq<char>)>, points: Seq<GridPoint>) -> Seq<
    UrlHitModel,
>
    decreases matches.len(),
{
    if matches.len() == 0 {
        Seq::empty()
    } else {
        let (start, url) = matches.last();
        let before = hits_of(matches.drop_last(), points);
        if start < points.len() {
            before.push(UrlHitModel { start: points[start as int], url })
        } else {
            before
        }
    }
}

/// What hits hold.
pub open spec fn hit_models(hits: Seq<UrlHit>) -> Seq<UrlHitModel> {
    hits.map_values(|hit: UrlHit| hit@)
}

/// The matches of a pattern in a text, as the byte at which each starts and what it
/// matched.
pub uninterp spec fn regex_matches(pattern: Seq<char>, text: Seq<char>) -> Seq<
    (usize, Seq<char>),
>;

/// Whether a piece stands in a text from its character `p` on.
pub open spec fn stands_at_char(text: Seq<char>, p: int, piece: Seq<char>) -> bool {
    &&& 0 <= p
    &&& p + piece.len() <= text.len()
    &&& text.subrange(p, p + piece.len()) == piece
}

/// Whether a piece stands in a text from its byte `start` on.
pub open spec fn stands_at(text: Seq<char>, start: int, piece: Seq<char>) -> bool {
    exists|p: int| #[trigger]
        stands_at_char(text, p, piece) && start == text::byte_len(text.take(p))
}

/// What a URL can begin with.
pub open spec fn schemes() -> Seq<Seq<char>> {
    seq![
        "ipfs:"@,
        "ipns:"@,
        "magnet:"@,
        "mailto:"@,
        "gemini://"@,
        "gopher://"@,
        "https://"@,
        "http://"@,
        "news:"@,
        "file://"@,
        "git://"@,
        "ssh:"@,
        "ftp://"@,
    ]
}

/// Whether a text begins with a scheme, goes on behind it, and holds neither whitespace nor
/// control codes.
pub open spec fn looks_like_url(url: Seq<char>) -> bool {
    &&& exists|k: int|
        0 <= k < schemes().len() && (#[trigger] schemes()[k]).is_prefix_of(url) && schemes()[k].len()
            < url.len()
    &&& forall|i: int|
        0 <= i < url.len() ==> !text::whitespace(#[trigger] url[i]) && !text::control(url[i])
}

/// Compiles [`URL_REGEX`] with [`regex::Regex::new`], which accepts it, and collects what
/// [`regex::Regex::find_iter`] yields. The matches depend on the pattern and the text
/// alone. Each stands in the text where it says it starts, and each ends before the next
/// starts. As the pattern asks, each begins with a scheme, something follows the scheme, and
/// there is neither whitespace nor a control code in it.
#[verifier::external_body]
fn find_matches(pattern: &str, text: &str) -> (res: Vec<(usize, String)>)
    requires
        pattern@ == URL_REGEX@,
    ensures
        res.deep_view() == regex_matches(pattern@, text@),
        forall|i: int|
            0 <= i < res@.len() ==> stands_at(
                text@,
                (#[trigger] res@[i]).0 as int,
                res@[i].1@,
            ) && looks_like_url(res@[i].1@),
        forall|i: int, j: int|
            0 <= i < j < res@.len() ==> (#[trigger] res@[i]).0 + text::byte_len(res@[i].1@) <= (
            #[trigger] res@[j]).0,
{
    let regex = regex::Regex::new(pattern).expect("the URL pattern compiles");
    regex.find_iter(text).map(|m| (m.start(), m.as_str().to_string())).collect()
}

/// Whether no cell that another follows on its line stands in the last column that a grid
/// can count to.
pub open spec fn columns_countable(cells: Seq<IndexedCell>) -> bool {
    forall|i: int|
        0 < i < cells.len() && cells[i - 1].point.line == (#[trigger] cells[i]).point.line
            ==> cells[i - 1].point.column as i32 != i32::MAX
}

proof fn lemma_points_len(glyphs: Seq<Glyph>)
    ensures
        points_of(glyphs).len() == text::byte_len(text_of(glyphs)),
    decreases glyphs.len(),
{
    if glyphs.len() > 0 {
        lemma_points_len(glyphs.drop_last());
        assert(text_of(glyphs) =~= text_of(glyphs.drop_last()).push(glyphs.last().ch));
        text::lemma_bytes_of_push(text_of(glyphs.drop_last()), glyphs.last().ch);
    }
}

/// Every byte of the visible text stands for a cell.
pub proof fn law_every_byte_has_a_cell(cells: Seq<IndexedCell>, columns: usize)
    ensures
        visible_points(cells, columns).len() == text::byte_len(visible_text(cells, columns)),
{
    lemma_points_len(glyphs_of(cells, at_least_one(columns)));
}

/// Whether the line changes only at a line break.
spec fn lines_broken(glyphs: Seq<Glyph>) -> bool {
    forall|j: int|
        0 < j < glyphs.len() && glyphs[j - 1].point.line != (#[trigger] glyphs[j]).point.line
            ==> glyphs[j].ch == '\n'
}

proof fn lemma_padding_line(from: int, cell: IndexedCell, columns: usize)
    ensures
        forall|j: int|
            0 <= j < padding(from, cell, columns).len() ==> (#[trigger] padding(
                from,
                cell,
                columns,
            )[j]).point.line == cell.point.line,
    decreases cell.point.column as i32 - from,
{
    if from < cell.point.column as i32 && from < columns as i32 {
        lemma_padding_line(from + 1, cell, columns);
        let rest = padding(from + 1, cell, columns);
        let all = padding(from, cell, columns);
        assert forall|j: int| 0 <= j < all.len() implies (#[trigger] all[j]).point.line
            == cell.point.line by {
            if j > 0 {
                assert(all[j] == rest[j - 1]);
            }
        }
    }
}

proof fn lemma_lines_broken(cells: Seq<IndexedCell>, columns: usize)
    ensures
        lines_broken(glyphs_of(cells, columns)),
        cells.len() > 0 ==> glyphs_of(cells, columns).len() > 0 && glyphs_of(
            cells,
            columns,
        ).last().point.line == cells.last().point.line,
    decreases cells.len(),
{
    if cells.len() > 0 {
        let i = cells.len() - 1;
        let before = cells.drop_last();
        lemma_lines_broken(before, columns);
        let head = glyphs_of(before, columns);
        let added = cell_glyphs(cells, i, columns);
        lemma_padding_line(0, cells[i], columns);
        if i > 0 {
            assert(before.last() == cells[i - 1]);
            lemma_padding_line(cells[i - 1].point.column as i32 + 1, cells[i], columns);
        }
        assert forall|j: int| 0 <= j < added.len() implies (#[trigger] added[j]).point.line
            == cells[i].point.line by {}
        let all = glyphs_of(cells, columns);
        assert(all == head + added);
        assert forall|j: int|
            0 < j < all.len() && all[j - 1].point.line != (#[trigger] all[j]).point.line implies
            all[j].ch == '\n' by {
            if j < head.len() {
                assert(all[j] == head[j] && all[j - 1] == head[j - 1]);
            } else if j == head.len() {
                assert(all[j] == added[0]);
                assert(all[j - 1] == head.last());
            } else {
                assert(all[j] == added[j - head.len()]);
                assert(all[j - 1] == added[j - 1 - head.len()]);
            }
        }
    }
}

/// The line of a byte differs from that of the byte before only where the byte is a line
/// break.
proof fn lemma_points_lines(glyphs: Seq<Glyph>)
    requires
        lines_broken(glyphs),
    ensures
        forall|p: int|
            0 < p < points_of(glyphs).len() && points_of(glyphs)[p - 1].line != (
            #[trigger] points_of(glyphs)[p]).line ==> encode_utf8(text_of(glyphs))[p] == 10,
        glyphs.len() > 0 ==> points_of(glyphs).len() > 0 && points_of(glyphs).last()
            == glyphs.last().point,
        points_of(glyphs).len() == text::byte_len(text_of(glyphs)),
    decreases glyphs.len(),
{
    lemma_points_len(glyphs);
    if glyphs.len() > 0 {
        let before = glyphs.drop_last();
        assert forall|j: int|
            0 < j < before.len() && before[j - 1].point.line != (#[trigger] before[j]).point.line
            implies before[j].ch == '\n' by {
            assert(glyphs[j] == before[j] && glyphs[j - 1] == before[j - 1]);
        }
        lemma_points_lines(before);
        let last = glyphs.last();
        let head = points_of(before);
        let points = points_of(glyphs);
        assert(text_of(glyphs) =~= text_of(before).push(last.ch));
        text::lemma_bytes_of_push(text_of(before), last.ch);
        let bytes = encode_utf8(text_of(glyphs));
        assert forall|p: int| 0 < p < points.len() && points[p - 1].line != (#[trigger] points[p]).line
            implies bytes[p] == 10 by {
            if p < head.len() {
                assert(points[p] == head[p] && points[p - 1] == head[p - 1]);
                assert(bytes[p] == encode_utf8(text_of(before))[p]);
            } else if p == head.len() {
                assert(before.len() > 0);
                assert(points[p - 1] == head.last());
                assert(glyphs[glyphs.len() - 2] == before.last());
                assert(glyphs[glyphs.len() - 1].ch == '\n');
                assert(10u32 & 0x7f == 10) by (bit_vector);
                assert(bytes[p] == encode_scalar(last.ch as u32)[0]);
            } else {
                assert(points[p] == last.point && points[p - 1] == last.point);
            }
        }
    }
}

/// Where a piece of the visible text without a line break stands, all of it stands on one
/// line of the grid.
pub proof fn law_piece_stands_on_one_line(
    cells: Seq<IndexedCell>,
    columns: usize,
    start: int,
    piece: Seq<char>,
)
    requires
        stands_at(visible_text(cells, columns), start, piece),
        !piece.contains('\n'),
    ensures
        on_one_line(visible_points(cells, columns), start, text::byte_len(piece)),
{
    let glyphs = glyphs_of(cells, at_least_one(columns));
    lemma_lines_broken(cells, at_least_one(columns));
    lemma_points_lines(glyphs);
    text::law_line_break_byte(piece);
    let points = points_of(glyphs);
    let bytes = encode_utf8(text_of(glyphs));
    let p = char_of(text_of(glyphs), start, piece);
    lemma_bytes_of_piece(text_of(glyphs), p, piece);
    lemma_one_line(points, bytes, start, encode_utf8(piece), text::byte_len(piece) as int);
}

/// The character from which on a piece stands that stands from the byte `start` on.
spec fn char_of(text: Seq<char>, start: int, piece: Seq<char>) -> int {
    choose|p: int| #[trigger]
        stands_at_char(text, p, piece) && start == text::byte_len(text.take(p))
}

/// The bytes of a piece stand in those of the text.
proof fn lemma_bytes_of_piece(text: Seq<char>, p: int, piece: Seq<char>)
    requires
        stands_at_char(text, p, piece),
    ensures
        text::byte_len(text.take(p + piece.len())) == text::byte_len(text.take(p))
            + text::byte_len(piece),
        text::byte_len(text.take(p)) + text::byte_len(piece) <= text::byte_len(text),
        encode_utf8(text).subrange(
            text::byte_len(text.take(p)) as int,
            (text::byte_len(text.take(p)) + text::byte_len(piece)) as int,
        ) == encode_utf8(piece),
{
    let (head, tail) = (text.take(p), text.skip(p + piece.len()));
    assert(text.take(p + piece.len()) =~= head + piece);
    text::law_bytes_of_concatenation(head, piece);
    text::law_bytes_of_concatenation(head + piece, tail);
    assert(text =~= head + piece + tail);
    let start = text::byte_len(head) as int;
    assert(encode_utf8(text).subrange(start, start + text::byte_len(piece)) =~= encode_utf8(piece));
}

proof fn lemma_one_line(
    points: Seq<GridPoint>,
    bytes: Seq<u8>,
    start: int,
    piece: Seq<u8>,
    count: int,
)
    requires
        0 <= start,
        0 <= count <= piece.len(),
        start + piece.len() <= bytes.len(),
        points.len() == bytes.len(),
        bytes.subrange(start, start + piece.len()) == piece,
        !piece.contains(10u8),
        forall|p: int|
            0 < p < points.len() && points[p - 1].line != (#[trigger] points[p]).line ==> bytes[p]
                == 10,
    ensures
        on_one_line(points, start, count as nat),
    decreases count,
{
    if count > 0 {
        lemma_one_line(points, bytes, start, piece, count - 1);
        let p = start + count - 1;
        assert(piece[count - 1] == bytes[p]);
        assert(piece.contains(bytes[p]));
        if count > 1 {
            assert(points[start + (count - 2)].line == points[start].line);
            assert(points[p - 1].line == points[p].line);
        }
        assert forall|k: int| 0 <= k < count implies (#[trigger] points[start + k]).line
            == points[start].line by {
            if k < count - 1 {
            } else {
                assert(start + k == p);
            }
        }
    }
}

/// Whether the cells of the given bytes stand on one line.
pub open spec fn on_one_line(points: Seq<GridPoint>, start: int, count: nat) -> bool {
    forall|k: int|
        0 <= k < count ==> (#[trigger] points[start + k]).line == points[start].line
}

/// Whether a hit stands in the visible text of a grid from the byte `start` on, at its cell
/// and on one line.
pub open spec fn hit_in_place(
    cells: Seq<IndexedCell>,
    columns: usize,
    hit: UrlHitModel,
    start: int,
) -> bool {
    &&& stands_at(visible_text(cells, columns), start, hit.url)
    &&& 0 <= start < visible_points(cells, columns).len()
    &&& hit.start == visible_points(cells, columns)[start]
    &&& on_one_line(visible_points(cells, columns), start, text::byte_len(hit.url))
}

/// Whether hits stand in the visible text of a grid from the given bytes on, each ending
/// before the next starts.
pub open spec fn hits_in_place(
    cells: Seq<IndexedCell>,
    columns: usize,
    hits: Seq<UrlHitModel>,
    starts: Seq<int>,
) -> bool {
    &&& starts.len() == hits.len()
    &&& forall|i: int|
        0 <= i < hits.len() ==> hit_in_place(cells, columns, #[trigger] hits[i], starts[i])
    &&& forall|i: int, j: int|
        0 <= i < j < hits.len() ==> #[trigger] starts[i] + text::byte_len(hits[i].url)
            <= #[trigger] starts[j]
}

/// Whether cells stand in the columns of a grid of the given width, and the columns rise
/// along every line.
pub open spec fn is_grid(cells: Seq<IndexedCell>, columns: usize) -> bool {
    &&& columns <= i32::MAX
    &&& forall|i: int| 0 <= i < cells.len() ==> (#[trigger] cells[i]).point.column < columns
    &&& forall|i: int|
        0 < i < cells.len() && cells[i - 1].point.line == (#[trigger] cells[i]).point.line
            ==> cells[i - 1].point.column < cells[i].point.column
}

/// Whether a hit is spelled by the cells from `first` on, which stand in one line, column by
/// column.
pub open spec fn spelled_by(cells: Seq<IndexedCell>, first: int, hit: UrlHitModel) -> bool {
    &&& 0 <= first
    &&& first + hit.url.len() <= cells.len()
    &&& hit.start == cells[first].point
    &&& forall|k: int|
        0 <= k < hit.url.len() ==> cell_spells(#[trigger] cells[first + k], hit.start, k, hit.url)
}

/// Whether a cell holds the character at `k` of a text that starts at `start`.
pub open spec fn cell_spells(cell: IndexedCell, start: GridPoint, k: int, url: Seq<char>) -> bool {
    cell.ch == url[k] && cell.point.line == start.line && cell.point.column == start.column + k
}

/// Whether hits are spelled by the cells from the given ones on, each ending before the next
/// starts.
pub open spec fn spelled_in_order(
    cells: Seq<IndexedCell>,
    hits: Seq<UrlHitModel>,
    firsts: Seq<int>,
) -> bool {
    &&& firsts.len() == hits.len()
    &&& forall|i: int| 0 <= i < hits.len() ==> spelled_by(cells, firsts[i], #[trigger] hits[i])
    &&& forall|i: int, j: int|
        0 <= i < j < hits.len() ==> #[trigger] firsts[i] + hits[i].url.len() <= #[trigger] firsts[j]
}

/// Where the character of a cell stands in the visible text.
spec fn cell_pos(cells: Seq<IndexedCell>, columns: usize, i: int) -> int {
    glyphs_of(cells.take(i + 1), columns).len() - 1
}

proof fn lemma_padding_blank(from: int, cell: IndexedCell, columns: usize)
    ensures
        forall|j: int|
            0 <= j < padding(from, cell, columns).len() ==> (#[trigger] padding(
                from,
                cell,
                columns,
            )[j]).ch == ' ',
    decreases cell.point.column as i32 - from,
{
    if from < cell.point.column as i32 && from < columns as i32 {
        lemma_padding_blank(from + 1, cell, columns);
        let rest = padding(from + 1, cell, columns);
        let all = padding(from, cell, columns);
        assert forall|j: int| 0 <= j < all.len() implies (#[trigger] all[j]).ch == ' ' by {
            if j > 0 {
                assert(all[j] == rest[j - 1]);
            }
        }
    }
}

/// The character of a cell follows that of the cell before, and what is added before it.
proof fn lemma_next_cell(cells: Seq<IndexedCell>, columns: usize, i: int)
    requires
        0 <= i < cells.len(),
    ensures
        i > 0 ==> cell_pos(cells, columns, i) == cell_pos(cells, columns, i - 1) + cell_glyphs(
            cells,
            i,
            columns,
        ).len(),
        cell_glyphs(cells, i, columns).len() >= 1,
        glyphs_of(cells.take(i + 1), columns) == glyphs_of(cells.take(i), columns) + cell_glyphs(
            cells,
            i,
            columns,
        ),
        glyphs_of(cells.take(i + 1), columns).last() == cell_glyph(cells[i]),
{
    let upto = cells.take(i + 1);
    assert(upto.drop_last() =~= cells.take(i));
    assert(cell_glyphs(upto, i, columns) == cell_glyphs(cells, i, columns));
}

/// The characters of cells stand in the order of the cells.
proof fn lemma_cells_in_order(cells: Seq<IndexedCell>, columns: usize, i: int, j: int)
    requires
        0 <= i < j < cells.len(),
    ensures
        cell_pos(cells, columns, i) < cell_pos(cells, columns, j),
    decreases j - i,
{
    lemma_next_cell(cells, columns, j);
    if i < j - 1 {
        lemma_cells_in_order(cells, columns, i, j - 1);
    }
}

/// A character of the visible text that is no blank is that of a cell.
proof fn lemma_cell_of_char(cells: Seq<IndexedCell>, columns: usize, p: int) -> (i: int)
    requires
        0 <= p < glyphs_of(cells, columns).len(),
        glyphs_of(cells, columns)[p].ch != ' ',
        glyphs_of(cells, columns)[p].ch != '\n',
    ensures
        0 <= i < cells.len(),
        cell_pos(cells, columns, i) == p,
        glyphs_of(cells, columns)[p] == cell_glyph(cells[i]),
    decreases cells.len(),
{
    let last = cells.len() - 1;
    let rest = cells.drop_last();
    let head = glyphs_of(rest, columns);
    let added = cell_glyphs(cells, last, columns);
    let all = glyphs_of(cells, columns);
    assert(all == head + added);
    if p < head.len() {
        assert(all[p] == head[p]);
        let i = lemma_cell_of_char(rest, columns, p);
        assert(rest.take(i + 1) =~= cells.take(i + 1));
        assert(rest[i] == cells[i]);
        i
    } else {
        assert(all[p] == added[p - head.len()]);
        lemma_padding_blank(0, cells[last], columns);
        if last > 0 {
            lemma_padding_blank(cells[last - 1].point.column as i32 + 1, cells[last], columns);
        }
        assert(p - head.len() == added.len() - 1);
        assert(cells.take(last + 1) =~= cells);
        last
    }
}

/// The cell of the byte at which a character starts is the cell of the character.
proof fn lemma_point_of_char(glyphs: Seq<Glyph>, p: int)
    requires
        0 <= p < glyphs.len(),
    ensures
        text::byte_len(text_of(glyphs).take(p)) < points_of(glyphs).len(),
        points_of(glyphs)[text::byte_len(text_of(glyphs).take(p)) as int] == glyphs[p].point,
    decreases glyphs.len(),
{
    let rest = glyphs.drop_last();
    lemma_points_len(rest);
    text::lemma_bytes_of_push(text_of(rest), glyphs.last().ch);
    if p < rest.len() {
        lemma_point_of_char(rest, p);
        assert(text_of(rest).take(p) =~= text_of(glyphs).take(p));
        assert(rest[p] == glyphs[p]);
    } else {
        assert(text_of(glyphs).take(p) =~= text_of(rest));
    }
}

/// The character at `k` of a piece without blanks is that of the cell `k` cells on.
#[verifier::spinoff_prover]
#[verifier::rlimit(60)]
proof fn lemma_piece_of_cells(
    cells: Seq<IndexedCell>,
    columns: usize,
    p: int,
    url: Seq<char>,
    first: int,
    k: int,
)
    requires
        is_grid(cells, columns),
        stands_at_char(visible_text(cells, columns), p, url),
        forall|i: int| 0 <= i < url.len() ==> !text::whitespace(#[trigger] url[i]),
        0 <= first < cells.len(),
        cell_pos(cells, columns, first) == p,
        0 <= k < url.len(),
    ensures
        first + k < cells.len(),
        cell_pos(cells, columns, first + k) == p + k,
        cell_spells(cells[first + k], cells[first].point, k, url),
    decreases k,
{
    let glyphs = glyphs_of(cells, columns);
    let text = visible_text(cells, columns);
    assert(at_least_one(columns) == columns);
    assert(text.subrange(p, p + url.len())[k] == text[p + k]);
    assert(glyphs[p + k].ch == url[k]);
    let at = lemma_cell_of_char(cells, columns, p + k);
    if k == 0 {
        if at < first {
            lemma_cells_in_order(cells, columns, at, first);
        } else if at > first {
            lemma_cells_in_order(cells, columns, first, at);
        }
    } else {
        lemma_piece_of_cells(cells, columns, p, url, first, k - 1);
        let before = first + k - 1;
        if at < before {
            lemma_cells_in_order(cells, columns, at, before);
        } else if at > before + 1 {
            lemma_cells_in_order(cells, columns, before, before + 1);
            lemma_cells_in_order(cells, columns, before + 1, at);
        }
        assert(at == before + 1);
        lemma_next_cell(cells, columns, at);
        assert(cell_glyphs(cells, at, columns).len() == 1);
        assert(cells[at - 1].point.line == cells[at].point.line);
        let from = cells[at - 1].point.column as i32 + 1;
        assert(padding(from, cells[at], columns).len() == 0);
    }
}

/// Where the cells stand in a grid, a URL of the visible text is spelled by cells next to
/// each other on one line, and starts at the first of them.
pub proof fn law_url_is_a_run_of_cells(
    cells: Seq<IndexedCell>,
    columns: usize,
    hit: UrlHitModel,
    start: int,
) -> (first: int)
    requires
        is_grid(cells, columns),
        hit_in_place(cells, columns, hit, start),
        looks_like_url(hit.url),
    ensures
        spelled_by(cells, first, hit),
{
    let text = visible_text(cells, columns);
    let p = char_of(text, start, hit.url);
    lemma_first_cell(cells, columns, hit, start, p)
}

proof fn lemma_first_cell(
    cells: Seq<IndexedCell>,
    columns: usize,
    hit: UrlHitModel,
    start: int,
    p: int,
) -> (first: int)
    requires
        is_grid(cells, columns),
        hit_in_place(cells, columns, hit, start),
        looks_like_url(hit.url),
        stands_at_char(visible_text(cells, columns), p, hit.url),
        start == text::byte_len(visible_text(cells, columns).take(p)),
    ensures
        spelled_by(cells, first, hit),
        cell_pos(cells, columns, first) == p,
        cell_pos(cells, columns, first + hit.url.len() - 1) == p + hit.url.len() - 1,
{
    let text = visible_text(cells, columns);
    let glyphs = glyphs_of(cells, at_least_one(columns));
    let url = hit.url;
    assert(text.subrange(p, p + url.len())[0] == text[p]);
    assert(glyphs[p].ch == url[0]);
    assert(!text::whitespace(url[0]));
    assert(cells.len() > 0);
    assert(cells[0].point.column < columns);
    let first = lemma_cell_of_char(cells, columns, p);
    lemma_point_of_char(glyphs, p);
    assert forall|k: int| 0 <= k < url.len() implies cell_spells(
        #[trigger] cells[first + k],
        hit.start,
        k,
        url,
    ) by {
        lemma_piece_of_cells(cells, columns, p, url, first, k);
    }
    lemma_piece_of_cells(cells, columns, p, url, first, url.len() - 1);
    first
}

/// Where the cells stand in a grid, the URLs are spelled by cells, none of which is of two
/// URLs, in the order of the cells.
pub proof fn law_urls_stand_in_order(
    cells: Seq<IndexedCell>,
    columns: usize,
    hits: Seq<UrlHitModel>,
    starts: Seq<int>,
) -> (firsts: Seq<int>)
    requires
        is_grid(cells, columns),
        hits_in_place(cells, columns, hits, starts),
        forall|i: int| 0 <= i < hits.len() ==> looks_like_url((#[trigger] hits[i]).url),
    ensures
        spelled_in_order(cells, hits, firsts),
{
    let text = visible_text(cells, columns);
    let firsts = Seq::new(hits.len(), |i: int| first_cell(cells, columns, hits[i], starts[i]));
    assert forall|i: int| 0 <= i < hits.len() implies spelled_by(
        cells,
        firsts[i],
        #[trigger] hits[i],
    ) by {
        lemma_first_cell_of(cells, columns, hits[i], starts[i]);
    }
    assert forall|i: int, j: int| 0 <= i < j < hits.len() implies #[trigger] firsts[i]
        + hits[i].url.len() <= #[trigger] firsts[j] by {
        let (p, q) = (
            char_of(text, starts[i], hits[i].url),
            char_of(text, starts[j], hits[j].url),
        );
        lemma_first_cell_of(cells, columns, hits[i], starts[i]);
        lemma_first_cell_of(cells, columns, hits[j], starts[j]);
        assert(looks_like_url(hits[i].url) && looks_like_url(hits[j].url));
        lemma_bytes_of_piece(text, p, hits[i].url);
        if q < p + hits[i].url.len() {
            text::lemma_longer_prefix(text, q, (p + hits[i].url.len()) as int);
        }
        let end = firsts[i] + hits[i].url.len() - 1;
        if firsts[j] < end {
            lemma_cells_in_order(cells, columns, firsts[j], end);
        }
    }
    firsts
}

/// The cell at which a hit starts.
spec fn first_cell(cells: Seq<IndexedCell>, columns: usize, hit: UrlHitModel, start: int) -> int {
    choose|first: int| #[trigger]
        spelled_by(cells, first, hit) && ends_at(
            cells,
            columns,
            first,
            hit.url.len(),
            char_of(visible_text(cells, columns), start, hit.url),
        )
}

/// Whether the cells from `first` on are those of the characters from `p` on.
spec fn ends_at(cells: Seq<IndexedCell>, columns: usize, first: int, count: nat, p: int) -> bool {
    &&& cell_pos(cells, columns, first) == p
    &&& cell_pos(cells, columns, first + count - 1) == p + count - 1
}

proof fn lemma_first_cell_of(
    cells: Seq<IndexedCell>,
    columns: usize,
    hit: UrlHitModel,
    start: int,
)
    requires
        is_grid(cells, columns),
        hit_in_place(cells, columns, hit, start),
        looks_like_url(hit.url),
    ensures
        spelled_by(cells, first_cell(cells, columns, hit, start), hit),
        ends_at(
            cells,
            columns,
            first_cell(cells, columns, hit, start),
            hit.url.len(),
            char_of(visible_text(cells, columns), start, hit.url),
        ),
        hit.url.len() > 0,
{
    let p = char_of(visible_text(cells, columns), start, hit.url);
    let first = lemma_first_cell(cells, columns, hit, start, p);
    assert(ends_at(cells, columns, first, hit.url.len(), p));
}

/// Appends a character to a text and its cell to the cells of its bytes.
fn push_glyph(
    text: &mut String,
    points: &mut Vec<GridPoint>,
    ch: char,
    point: GridPoint,
    Ghost(glyphs): Ghost<Seq<Glyph>>,
)
    requires
        old(text)@ == text_of(glyphs),
        old(points)@ == points_of(glyphs),
    ensures
        final(text)@ == text_of(glyphs.push(Glyph { ch, point })),
        final(points)@ == points_of(glyphs.push(Glyph { ch, point })),
{
    let ghost after = glyphs.push(Glyph { ch, point });
    assert(after.drop_last() =~= glyphs);
    text.push(ch);
    assert(text@ =~= text_of(after));
    let width = text::char_width(ch);
    let mut i: usize = 0;
    assert(points@ =~= points_of(glyphs) + Seq::new(0, |k: int| point));
    while i < width
        invariant
            i <= width,
            points@ == points_of(glyphs) + Seq::new(i as nat, |k: int| point),
        decreases width - i,
    {
        points.push(point);
        i += 1;
        assert(points@ =~= points_of(glyphs) + Seq::new(i as nat, |k: int| point));
    }
    assert(points@ =~= points_of(after));
}

/// Appends spaces for the columns from `from` to before the cell, as far as the grid is
/// wide.
fn push_padding(
    text: &mut String,
    points: &mut Vec<GridPoint>,
    from: i32,
    cell: IndexedCell,
    columns: usize,
    Ghost(glyphs): Ghost<Seq<Glyph>>,
)
    requires
        old(text)@ == text_of(glyphs),
        old(points)@ == points_of(glyphs),
    ensures
        final(text)@ == text_of(glyphs + padding(from as int, cell, columns)),
        final(points)@ == points_of(glyphs + padding(from as int, cell, columns)),
{
    let ghost all = glyphs + padding(from as int, cell, columns);
    let ghost mut done = glyphs;
    let mut column: i32 = from;
    while column < cell.point.column as i32 && column < columns as i32
        invariant
            text@ == text_of(done),
            points@ == points_of(done),
            all == done + padding(column as int, cell, columns),
        decreases cell.point.column as i32 - column,
    {
        let point = GridPoint { line: cell.point.line, column: column as usize };
        push_glyph(text, points, ' ', point, Ghost(done));
        proof {
            let next = done.push(Glyph { ch: ' ', point });
            assert(all =~= next + padding(column + 1, cell, columns));
            done = next;
        }
        column += 1;
    }
    assert(done =~= all);
}

/// Returns the visible text of a grid and the cell of each of its bytes. Where a new line
/// starts, the text has a line break.
pub fn visible_text_of(cells: &Vec<IndexedCell>, columns: usize) -> (res: (String, Vec<GridPoint>))
    requires
        columns_countable(cells@),
    ensures
        res.0@ == visible_text(cells@, columns),
        res.1@ == visible_points(cells@, columns),
{
    let columns: usize = if columns == 0 {
        1
    } else {
        columns
    };
    let mut text = String::new();
    let mut points: Vec<GridPoint> = Vec::new();
    let mut i: usize = 0;
    assert(text@ =~= text_of(glyphs_of(cells@.take(0), columns)));
    while i < cells.len()
        invariant
            i <= cells@.len(),
            columns_countable(cells@),
            text@ == text_of(glyphs_of(cells@.take(i as int), columns)),
            points@ == points_of(glyphs_of(cells@.take(i as int), columns)),
        decreases cells@.len() - i,
    {
        let ghost mut done = glyphs_of(cells@.take(i as int), columns);
        let ghost before = done;
        let cell = cells[i];
        let mut from: i32 = 0;
        if i > 0 {
            if cells[i - 1].point.line != cell.point.line {
                let start = GridPoint { line: cell.point.line, column: 0 };
                push_glyph(&mut text, &mut points, '\n', start, Ghost(done));
                proof {
                    done = done.push(Glyph { ch: '\n', point: start });
                }
            } else {
                from = cells[i - 1].point.column as i32 + 1;
            }
        }
        push_padding(&mut text, &mut points, from, cell, columns, Ghost(done));
        let ch = if cell.ch == '\0' {
            ' '
        } else {
            cell.ch
        };
        proof {
            done = done + padding(from as int, cell, columns);
        }
        push_glyph(&mut text, &mut points, ch, cell.point, Ghost(done));
        proof {
            let next = cells@.take(i + 1);
            assert(next.drop_last() =~= cells@.take(i as int));
            assert(done.push(cell_glyph(cell)) =~= before + cell_glyphs(next, i as int, columns));
            assert(glyphs_of(next, columns) == done.push(cell_glyph(cell)));
        }
        i += 1;
    }
    assert(cells@.take(i as int) =~= cells@);
    (text, points)
}

/// Returns the hits that matches make, where `points` names the cell of each byte.
pub fn url_hits(matches: &Vec<(usize, String)>, points: &Vec<GridPoint>) -> (res: Vec<UrlHit>)
    ensures
        hit_models(res@) == hits_of(matches.deep_view(), points@),
{
    let mut res: Vec<UrlHit> = Vec::new();
    let mut i: usize = 0;
    let ghost all = matches.deep_view();
    assert(hit_models(res@) =~= hits_of(all.take(0), points@));
    while i < matches.len()
        invariant
            i <= matches@.len(),
            all == matches.deep_view(),
            hit_models(res@) == hits_of(all.take(i as int), points@),
        decreases matches@.len() - i,
    {
        let ghost before = hit_models(res@);
        let start = matches[i].0;
        assert(all.take(i + 1).drop_last() =~= all.take(i as int));
        assert(all[i as int] == (start, matches@[i as int].1@));
        if start < points.len() {
            res.push(UrlHit { start: points[start], url: matches[i].1.clone() });
            assert(hit_models(res@) =~= before.push(
                UrlHitModel { start: points@[start as int], url: all[i as int].1 },
            ));
        }
        i += 1;
    }
    assert(all.take(i as int) =~= all);
    res
}

/// Where every match starts in the text, each makes a hit.
proof fn lemma_match_makes_hit(
    matches: Seq<(usize, Seq<char>)>,
    points: Seq<GridPoint>,
)
    requires
        forall|i: int| 0 <= i < matches.len() ==> (#[trigger] matches[i]).0 < points.len(),
    ensures
        hits_of(matches, points) == matches.map_values(
            |m: (usize, Seq<char>)| UrlHitModel { start: points[m.0 as int], url: m.1 },
        ),
    decreases matches.len(),
{
    let all = matches.map_values(
        |m: (usize, Seq<char>)| UrlHitModel { start: points[m.0 as int], url: m.1 },
    );
    if matches.len() == 0 {
        assert(all =~= Seq::empty());
    } else {
        let rest = matches.drop_last();
        assert forall|i: int| 0 <= i < rest.len() implies (#[trigger] rest[i]).0 < points.len() by {
            assert(rest[i] == matches[i]);
        }
        lemma_match_makes_hit(rest, points);
        assert(hits_of(matches, points) =~= all);
    }
}

/// Returns every URL of the visible grid with the cell in which it starts. `columns` is
/// the width of the grid. Each begins with a scheme and holds no blank, no URL reaches across
/// the end of a line, and each ends before the next starts. Where the cells stand in a grid,
/// each is spelled by cells next to each other.
pub fn find_visible_urls(cells: &Vec<IndexedCell>, columns: usize) -> (res: Vec<UrlHit>)
    requires
        columns_countable(cells@),
    ensures
        cells@.len() == 0 ==> res@.len() == 0,
        cells@.len() > 0 ==> hit_models(res@) == hits_of(
            regex_matches(URL_REGEX@, visible_text(cells@, columns)),
            visible_points(cells@, columns),
        ),
        cells@.len() > 0 ==> res@.len() == regex_matches(
            URL_REGEX@,
            visible_text(cells@, columns),
        ).len(),
        forall|i: int| 0 <= i < res@.len() ==> looks_like_url((#[trigger] res@[i]).url@),
        exists|starts: Seq<int>| #[trigger]
            hits_in_place(cells@, columns, hit_models(res@), starts),
        is_grid(cells@, columns) ==> exists|firsts: Seq<int>| #[trigger]
            spelled_in_order(cells@, hit_models(res@), firsts),
{
    if cells.len() == 0 {
        let res: Vec<UrlHit> = Vec::new();
        proof {
            assert(hits_in_place(cells@, columns, hit_models(res@), Seq::empty()));
            assert(spelled_in_order(cells@, hit_models(res@), Seq::empty()));
        }
        return res;
    }
    let (text, points) = visible_text_of(cells, columns);
    let matches = find_matches(URL_REGEX, text.as_str());
    let res = url_hits(&matches, &points);
    proof {
        let found = matches.deep_view();
        let hits = hit_models(res@);
        let starts = Seq::new(found.len(), |i: int| found[i].0 as int);
        assert forall|i: int| 0 <= i < found.len() implies (#[trigger] found[i]).0 < points@.len()
            && stands_at(text@, found[i].0 as int, found[i].1) && looks_like_url(found[i].1) by {
            assert(found[i] == (matches@[i].0, matches@[i].1@));
            let p = char_of(text@, found[i].0 as int, found[i].1);
            lemma_point_of_char(glyphs_of(cells@, at_least_one(columns)), p);
        }
        lemma_match_makes_hit(found, points@);
        assert forall|i: int| 0 <= i < hits.len() implies hit_in_place(
            cells@,
            columns,
            #[trigger] hits[i],
            starts[i],
        ) by {
            assert(looks_like_url(found[i].1));
            assert(!found[i].1.contains('\n'));
            law_piece_stands_on_one_line(cells@, columns, starts[i], hits[i].url);
        }
        assert forall|i: int, j: int| 0 <= i < j < hits.len() implies #[trigger] starts[i]
            + text::byte_len(hits[i].url) <= #[trigger] starts[j] by {
            assert(found[i] == (matches@[i].0, matches@[i].1@));
            assert(found[j] == (matches@[j].0, matches@[j].1@));
        }
        assert(hits_in_place(cells@, columns, hits, starts));
        assert forall|i: int| 0 <= i < res@.len() implies looks_like_url(
            (#[trigger] res@[i]).url@,
        ) by {
            assert(hits[i] == res@[i]@);
            assert(looks_like_url(found[i].1));
        }
        assert forall|i: int| 0 <= i < hits.len() implies looks_like_url(
            (#[trigger] hits[i]).url,
        ) by {
            assert(looks_like_url(found[i].1));
        }
        if is_grid(cells@, columns) {
            let firsts = law_urls_stand_in_order(cells@, columns, hits, starts);
            assert(spelled_in_order(cells@, hits, firsts));
        }
    }
    res
}

impl GridPoint {
    /// The row of the window in which the cell is drawn: lines above the viewport are drawn
    /// in its first row.
    pub fn window_row(&self) -> (res: i32)
        ensures
            res == (if self.line < 0 {
                0
            } else {
                self.line as int
            }),
    {
        if self.line < 0 {
            0
        } else {
            self.line
        }
    }
}

/// A terminal as it was painted last.
#[derive(Debug)]
pub struct TerminalPaint {
    /// How long ago that was, in nanoseconds, if it was painted at all.
    pub age_nanos: Option<u128>,
    /// Whether it is neither zero pixels wide nor zero pixels high.
    pub has_area: bool,
    pub columns: usize,
    pub cells: Vec<IndexedCell>,
}

/// A place in a terminal to jump to.
#[derive(Debug)]
pub struct TerminalCandidate {
    pub kind: JumpKind,
    pub cell: GridPoint,
}

/// What a [`TerminalCandidate`] holds.
#[verifier::ext_equal]
pub struct CandidateModel {
    pub kind: KindModel,
    pub cell: GridPoint,
}

impl View for TerminalCandidate {
    type V = CandidateModel;

    open spec fn view(&self) -> CandidateModel {
        CandidateModel { kind: self.kind@, cell: self.cell }
    }
}

/// What candidates hold.
pub open spec fn candidate_models(candidates: Seq<TerminalCandidate>) -> Seq<CandidateModel> {
    candidates.map_values(|candidate: TerminalCandidate| candidate@)
}

/// The candidates for words and for URLs, in this order.
pub open spec fn candidates_of(tokens: Seq<WordToken>, hits: Seq<UrlHitModel>) -> Seq<
    CandidateModel,
> {
    tokens.map_values(
        |token: WordToken| CandidateModel { kind: KindModel::Word, cell: token.start },
    ) + hits.map_values(
        |hit: UrlHitModel| CandidateModel { kind: KindModel::Url(hit.url), cell: hit.start },
    )
}

/// The words that a mode asks for.
pub open spec fn words_in_mode(cells: Seq<IndexedCell>, mode: JumpMode) -> Seq<WordToken> {
    if mode == JumpMode::Url {
        Seq::empty()
    } else {
        tokens_of(cells)
    }
}

/// The URLs of a grid.
pub open spec fn urls_of(cells: Seq<IndexedCell>, columns: usize) -> Seq<UrlHitModel> {
    if cells.len() == 0 {
        Seq::empty()
    } else {
        hits_of(
            regex_matches(URL_REGEX@, visible_text(cells, columns)),
            visible_points(cells, columns),
        )
    }
}

/// Makes the candidates for words and for URLs, in this order.
pub fn make_candidates(tokens: &Vec<WordToken>, hits: &Vec<UrlHit>) -> (res: Vec<TerminalCandidate>)
    ensures
        candidate_models(res@) == candidates_of(tokens@, hit_models(hits@)),
{
    let mut res: Vec<TerminalCandidate> = Vec::new();
    let ghost all = candidates_of(tokens@, hit_models(hits@));
    let mut i: usize = 0;
    while i < tokens.len()
        invariant
            i <= tokens@.len(),
            all == candidates_of(tokens@, hit_models(hits@)),
            candidate_models(res@) == all.take(i as int),
        decreases tokens@.len() - i,
    {
        let ghost before = candidate_models(res@);
        res.push(TerminalCandidate { kind: JumpKind::Word, cell: tokens[i].start });
        assert(candidate_models(res@) =~= before.push(all[i as int]));
        assert(candidate_models(res@) =~= all.take(i + 1));
        i += 1;
    }
    let mut j: usize = 0;
    while j < hits.len()
        invariant
            j <= hits@.len(),
            all == candidates_of(tokens@, hit_models(hits@)),
            candidate_models(res@) == all.take(tokens@.len() + j),
        decreases hits@.len() - j,
    {
        let ghost before = candidate_models(res@);
        let url = hits[j].url.clone();
        res.push(TerminalCandidate { kind: JumpKind::Url(url), cell: hits[j].start });
        proof {
            assert(hit_models(hits@)[j as int] == hits@[j as int]@);
            assert(candidate_models(res@) =~= before.push(all[tokens@.len() + j]));
            assert(candidate_models(res@) =~= all.take(tokens@.len() + j + 1));
        }
        j += 1;
    }
    assert(candidate_models(res@) =~= all);
    res
}

/// Returns the places to jump to in a terminal that is on the screen: its words, unless
/// only URLs are asked for, and its URLs. A terminal without area has none.
pub fn collect_inner(paint: &TerminalPaint, mode: JumpMode) -> (res: Vec<TerminalCandidate>)
    requires
        columns_countable(paint.cells@),
    ensures
        candidate_models(res@) == (if paint.has_area {
            candidates_of(
                words_in_mode(paint.cells@, mode),
                urls_of(paint.cells@, paint.columns),
            )
        } else {
            Seq::empty()
        }),
{
    if !paint.has_area {
        let res: Vec<TerminalCandidate> = Vec::new();
        assert(candidate_models(res@) =~= Seq::empty());
        return res;
    }
    let tokens = if mode == JumpMode::Url {
        Vec::new()
    } else {
        walk_visible_word_tokens(&paint.cells)
    };
    let hits = find_visible_urls(&paint.cells, paint.columns);
    assert(hit_models(hits@) =~= urls_of(paint.cells@, paint.columns));
    make_candidates(&tokens, &hits)
}

/// Returns the places to jump to in a terminal; none where it is gone or was not painted
/// lately.
pub fn collect(view: Option<&TerminalPaint>, mode: JumpMode) -> (res: Vec<TerminalCandidate>)
    requires
        view matches Some(paint) ==> columns_countable(paint.cells@),
    ensures
        candidate_models(res@) == (match view {
            Some(paint) => if jump::on_screen(paint.age_nanos) && paint.has_area {
                candidates_of(
                    words_in_mode(paint.cells@, mode),
                    urls_of(paint.cells@, paint.columns),
                )
            } else {
                Seq::empty()
            },
            None => Seq::empty(),
        }),
{
    if let Some(paint) = view {
        if jump::is_on_screen(paint.age_nanos) {
            return collect_inner(paint, mode);
        }
    }
    let res: Vec<TerminalCandidate> = Vec::new();
    assert(candidate_models(res@) =~= Seq::empty());
    res
}

/// What a jump does.
pub open spec fn effect_of(candidate: CandidateModel, view_alive: bool) -> EffectModel<GridPoint> {
    match candidate.kind {
        KindModel::Url(url) => EffectModel { copy: Some(url), focus: view_alive, go_to: None },
        _ => EffectModel {
            copy: None,
            focus: view_alive,
            go_to: if view_alive {
                Some(candidate.cell)
            } else {
                None
            },
        },
    }
}

impl TerminalCandidate {
    /// Returns what a jump here does: a URL is copied, a word is selected, and either way
    /// the terminal gets the focus if it is still there.
    pub fn jump(&self, view_alive: bool) -> (res: JumpEffect<GridPoint>)
        ensures
            res@ == effect_of(self@, view_alive),
    {
        match &self.kind {
            JumpKind::Url(url) => JumpEffect {
                copy: Some(url.clone()),
                focus: view_alive,
                go_to: None,
            },
            _ => JumpEffect {
                copy: None,
                focus: view_alive,
                go_to: if view_alive {
                    Some(self.cell)
                } else {
                    None
                },
            },
        }
    }
}

/// Whether a character shows something: it is no whitespace, no control code and no empty
/// cell.
pub open spec fn is_text(ch: char) -> bool {
    !text::whitespace(ch) && !text::control(ch) && ch != '\0'
}

/// Whether the cells from `start` to before `end` are two or more cells of one line that show
/// something, with no such cell of that line next to them.
pub open spec fn cells_alone(cells: Seq<IndexedCell>, start: int, end: int) -> bool {
    &&& 0 <= start && start + 2 <= end <= cells.len()
    &&& forall|k: int| start <= k < end ==> is_text((#[trigger] cells[k]).ch)
    &&& forall|k: int|
        start <= k < end ==> (#[trigger] cells[k]).point.line == cells[start].point.line
    &&& start > 0 && is_text(cells[start - 1].ch) ==> cells[start - 1].point.line
        != cells[start].point.line
    &&& end < cells.len() && is_text(cells[end].ch) ==> cells[end].point.line
        != cells[end - 1].point.line
}

/// Whether tokens are, in order, the first cells of the given pieces, which are all that
/// stand alone, each ending before the next starts.
pub open spec fn tokens_belong(
    tokens: Seq<WordToken>,
    from: Seq<(int, int)>,
    cells: Seq<IndexedCell>,
) -> bool {
    &&& tokens.len() == from.len()
    &&& forall|i: int|
        0 <= i < from.len() ==> cells_alone(cells, (#[trigger] from[i]).0, from[i].1)
    &&& forall|i: int|
        0 <= i < tokens.len() ==> (#[trigger] tokens[i]).start == cells[from[i].0].point
    &&& forall|i: int, j: int|
        0 <= i < j < from.len() ==> (#[trigger] from[i]).1 <= (#[trigger] from[j]).0
    &&& forall|start: int, end: int| #[trigger]
        cells_alone(cells, start, end) ==> from.contains((start, end))
}

proof fn lemma_one_line_of_cells(cells: Seq<IndexedCell>, marks: Seq<WordMark>, start: int, k: int)
    requires
        marks == marks_of(cells, word_cells(cells)),
        0 <= start <= k < cells.len(),
        forall|j: int| start < j <= k ==> !(#[trigger] marks[j]).line_start,
    ensures
        cells[k].point.line == cells[start].point.line,
    decreases k,
{
    if start < k {
        lemma_one_line_of_cells(cells, marks, start, k - 1);
        assert(!marks[k].line_start);
    }
}

proof fn lemma_cells_alone(cells: Seq<IndexedCell>, start: int, end: int)
    ensures
        words::words(marks_of(cells, word_cells(cells))).contains((start, end)) <==> cells_alone(
            cells,
            start,
            end,
        ),
{
    let marks = marks_of(cells, word_cells(cells));
    words::law_words_stand_alone(marks, start, end);
    if words::stands_alone(marks, start, end) {
        assert forall|k: int| start <= k < end implies is_text((#[trigger] cells[k]).ch) by {
            assert(marks[k].word);
        }
        assert forall|k: int| start <= k < end implies (#[trigger] cells[k]).point.line
            == cells[start].point.line by {
            lemma_one_line_of_cells(cells, marks, start, k);
        }
    }
    if cells_alone(cells, start, end) {
        assert forall|k: int| start <= k < end implies (#[trigger] marks[k]).word by {
            assert(is_text(cells[k].ch));
        }
        assert forall|k: int| start < k < end implies !(#[trigger] marks[k]).line_start by {
            assert(cells[k].point.line == cells[start].point.line);
            assert(cells[k - 1].point.line == cells[start].point.line);
        }
    }
}

/// The words of a grid are offered where they start: just the pieces of two or more cells of
/// one line that show something and stand alone, in the order of the cells.
pub proof fn law_words_of_a_grid(cells: Seq<IndexedCell>)
    ensures
        exists|from: Seq<(int, int)>| #[trigger] tokens_belong(tokens_of(cells), from, cells),
{
    let marks = marks_of(cells, word_cells(cells));
    let from = words::words(marks);
    let tokens = tokens_of(cells);
    words::law_words_are_the_runs(marks);
    assert forall|i: int| 0 <= i < from.len() implies cells_alone(
        cells,
        (#[trigger] from[i]).0,
        from[i].1,
    ) by {
        assert(from.contains((from[i].0, from[i].1)));
        lemma_cells_alone(cells, from[i].0, from[i].1);
    }
    assert forall|start: int, end: int| #[trigger] cells_alone(cells, start, end) implies
        from.contains((start, end)) by {
        lemma_cells_alone(cells, start, end);
    }
    assert forall|i: int, j: int| 0 <= i < j < from.len() implies (#[trigger] from[i]).1 <= (
    #[trigger] from[j]).0 by {
        assert(words::words(marks)[i].1 <= words::words(marks)[j].0);
    }
    assert(tokens.len() == from.len());
    assert(tokens_belong(tokens, from, cells));
}

/// Whether the characters of a text at the given places are those of the cells, in order: an
/// empty cell shows a space, the first byte of each stands for its cell, and the last of them
/// ends the text.
pub open spec fn cells_stand_at(cells: Seq<IndexedCell>, columns: usize, at: Seq<int>) -> bool {
    let text = visible_text(cells, columns);
    let points = visible_points(cells, columns);
    &&& at.len() == cells.len()
    &&& forall|i: int, j: int| 0 <= i < j < at.len() ==> #[trigger] at[i] < #[trigger] at[j]
    &&& forall|i: int|
        0 <= i < at.len() ==> 0 <= #[trigger] at[i] < text.len() && text[at[i]] == (
        if cells[i].ch == '\0' {
            ' '
        } else {
            cells[i].ch
        }) && points[text::byte_len(text.take(at[i])) as int] == cells[i].point
    &&& text.len() == (if cells.len() == 0 {
        0
    } else {
        at.last() + 1
    })
}

/// Whether what stands before a cell in the text is just the gap: in a new line a line break
/// and a space for each column before the cell, else a space for each column in between.
pub open spec fn gaps_are_blank(cells: Seq<IndexedCell>, columns: usize, at: Seq<int>) -> bool {
    let text = visible_text(cells, columns);
    &&& cells.len() > 0 ==> at[0] == cells[0].point.column && forall|p: int|
        0 <= p < at[0] ==> #[trigger] text[p] == ' '
    &&& forall|i: int|
        0 < i < cells.len() && cells[i - 1].point.line == (#[trigger] cells[i]).point.line ==> {
            &&& at[i] - at[i - 1] == cells[i].point.column - cells[i - 1].point.column
            &&& forall|p: int| at[i - 1] < p < at[i] ==> #[trigger] text[p] == ' '
        }
    &&& forall|i: int|
        0 < i < cells.len() && cells[i - 1].point.line != (#[trigger] cells[i]).point.line ==> {
            &&& at[i] - at[i - 1] == cells[i].point.column + 2
            &&& text[at[i - 1] + 1] == '\n'
            &&& forall|p: int| at[i - 1] + 1 < p < at[i] ==> #[trigger] text[p] == ' '
        }
}

proof fn lemma_glyphs_of_prefix(cells: Seq<IndexedCell>, columns: usize, i: int)
    requires
        0 <= i <= cells.len(),
    ensures
        glyphs_of(cells.take(i), columns).is_prefix_of(glyphs_of(cells, columns)),
    decreases cells.len() - i,
{
    if i < cells.len() {
        lemma_glyphs_of_prefix(cells, columns, i + 1);
        lemma_next_cell(cells, columns, i);
    } else {
        assert(cells.take(i) =~= cells);
    }
}

/// Every cell of a grid stands in its visible text, in order.
pub proof fn law_every_cell_stands_in_the_text(cells: Seq<IndexedCell>, columns: usize)
    ensures
        exists|at: Seq<int>| #[trigger]
            cells_stand_at(cells, columns, at) && (is_grid(cells, columns) ==> gaps_are_blank(
                cells,
                columns,
                at,
            )),
{
    let width = at_least_one(columns);
    let at = Seq::new(cells.len(), |i: int| cell_pos(cells, width, i));
    let text = visible_text(cells, columns);
    let glyphs = glyphs_of(cells, width);
    let points = visible_points(cells, columns);
    assert forall|i: int, j: int| 0 <= i < j < at.len() implies #[trigger] at[i]
        < #[trigger] at[j] by {
        lemma_cells_in_order(cells, width, i, j);
    }
    assert forall|i: int| 0 <= i < at.len() implies 0 <= #[trigger] at[i] < text.len()
        && glyphs[at[i]] == cell_glyph(cells[i]) && points[text::byte_len(
        text.take(at[i]),
    ) as int] == cells[i].point by {
        lemma_next_cell(cells, width, i);
        lemma_glyphs_of_prefix(cells, width, i + 1);
        lemma_point_of_char(glyphs, at[i]);
    }
    if cells.len() > 0 {
        assert(cells.take(cells.len() as int) =~= cells);
    }
    assert(cells_stand_at(cells, columns, at));
    if is_grid(cells, columns) {
        lemma_gaps(cells, columns, at);
    }
}

proof fn lemma_padding_len(from: int, cell: IndexedCell, columns: usize)
    requires
        0 <= from <= cell.point.column < columns <= i32::MAX,
    ensures
        padding(from, cell, columns).len() == cell.point.column - from,
    decreases cell.point.column - from,
{
    if from < cell.point.column {
        lemma_padding_len(from + 1, cell, columns);
    }
}

proof fn lemma_gap(cells: Seq<IndexedCell>, columns: usize, i: int, p: int)
    requires
        0 <= i < cells.len(),
        (if i == 0 {
            -1
        } else {
            cell_pos(cells, columns, i - 1)
        }) < p <= cell_pos(cells, columns, i),
    ensures
        p < glyphs_of(cells, columns).len(),
        glyphs_of(cells, columns)[p] == cell_glyphs(cells, i, columns)[p - (if i == 0 {
            0
        } else {
            cell_pos(cells, columns, i - 1) + 1
        })],
        i == 0 ==> cell_pos(cells, columns, 0) == cell_glyphs(cells, 0, columns).len() - 1,
{
    lemma_next_cell(cells, columns, i);
    lemma_glyphs_of_prefix(cells, columns, i + 1);
    let upto = glyphs_of(cells.take(i + 1), columns);
    let before = glyphs_of(cells.take(i), columns);
    assert(upto[p] == glyphs_of(cells, columns)[p]);
    assert(upto == before + cell_glyphs(cells, i, columns));
    if i > 0 {
        assert(cell_pos(cells, columns, i - 1) == before.len() - 1);
        assert(upto[p] == cell_glyphs(cells, i, columns)[p - before.len()]);
    }
    if i == 0 {
        assert(cells.take(0) =~= Seq::empty());
        assert(glyphs_of(cells.take(0), columns) =~= Seq::empty());
    }
}

/// What stands before the first cell.
#[verifier::spinoff_prover]
proof fn lemma_first_gap(cells: Seq<IndexedCell>, columns: usize)
    requires
        is_grid(cells, columns),
        cells.len() > 0,
    ensures
        cell_pos(cells, columns, 0) == cells[0].point.column,
        forall|p: int|
            0 <= p < cells[0].point.column ==> (#[trigger] glyphs_of(cells, columns)[p]).ch == ' ',
{
    let cell = cells[0];
    assert(cell.point.column < columns);
    lemma_padding_len(0, cell, columns);
    lemma_padding_blank(0, cell, columns);
    lemma_next_cell(cells, columns, 0);
    assert(cell_glyphs(cells, 0, columns) == padding(0, cell, columns).push(cell_glyph(cell)));
    lemma_gap(cells, columns, 0, cell_pos(cells, columns, 0));
    assert forall|p: int| 0 <= p < cell.point.column implies (#[trigger] glyphs_of(
        cells,
        columns,
    )[p]).ch == ' ' by {
        lemma_gap(cells, columns, 0, p);
        assert(cell_glyphs(cells, 0, columns)[p] == padding(0, cell, columns)[p]);
    }
}

/// What stands between two cells of one line.
#[verifier::spinoff_prover]
proof fn lemma_gap_in_line(cells: Seq<IndexedCell>, columns: usize, i: int)
    requires
        is_grid(cells, columns),
        0 < i < cells.len(),
        cells[i - 1].point.line == cells[i].point.line,
    ensures
        cell_pos(cells, columns, i) - cell_pos(cells, columns, i - 1) == cells[i].point.column
            - cells[i - 1].point.column,
        forall|p: int|
            cell_pos(cells, columns, i - 1) < p < cell_pos(cells, columns, i) ==> (
            #[trigger] glyphs_of(cells, columns)[p]).ch == ' ',
{
    let cell = cells[i];
    let from = cells[i - 1].point.column as int + 1;
    let before = cell_pos(cells, columns, i - 1);
    assert(cells[i - 1].point.column < columns);
    assert(cell.point.column < columns);
    assert(cells[i - 1].point.column < cell.point.column);
    assert(cells[i - 1].point.column as i32 + 1 == from);
    lemma_padding_len(from, cell, columns);
    lemma_padding_blank(from, cell, columns);
    lemma_next_cell(cells, columns, i);
    assert(cell_glyphs(cells, i, columns) == padding(from, cell, columns).push(cell_glyph(cell)));
    assert forall|p: int| before < p < cell_pos(cells, columns, i) implies (#[trigger] glyphs_of(
        cells,
        columns,
    )[p]).ch == ' ' by {
        lemma_gap(cells, columns, i, p);
        assert(cell_glyphs(cells, i, columns)[p - before - 1] == padding(from, cell, columns)[p
            - before - 1]);
    }
}

/// What stands between the last cell of a line and the first of the next.
#[verifier::spinoff_prover]
proof fn lemma_gap_between_lines(cells: Seq<IndexedCell>, columns: usize, i: int)
    requires
        is_grid(cells, columns),
        0 < i < cells.len(),
        cells[i - 1].point.line != cells[i].point.line,
    ensures
        cell_pos(cells, columns, i) - cell_pos(cells, columns, i - 1) == cells[i].point.column + 2,
        glyphs_of(cells, columns)[cell_pos(cells, columns, i - 1) + 1].ch == '\n',
        forall|p: int|
            cell_pos(cells, columns, i - 1) + 1 < p < cell_pos(cells, columns, i) ==> (
            #[trigger] glyphs_of(cells, columns)[p]).ch == ' ',
{
    let cell = cells[i];
    let before = cell_pos(cells, columns, i - 1);
    assert(cell.point.column < columns);
    lemma_padding_len(0, cell, columns);
    lemma_padding_blank(0, cell, columns);
    lemma_next_cell(cells, columns, i);
    let line_break = Glyph { ch: '\n', point: GridPoint { line: cell.point.line, column: 0 } };
    let added = cell_glyphs(cells, i, columns);
    assert(added == (seq![line_break] + padding(0, cell, columns)).push(cell_glyph(cell)));
    assert(added[0] == line_break);
    lemma_gap(cells, columns, i, before + 1);
    assert forall|p: int| before + 1 < p < cell_pos(cells, columns, i) implies (
    #[trigger] glyphs_of(cells, columns)[p]).ch == ' ' by {
        lemma_gap(cells, columns, i, p);
        assert(added[p - before - 1] == padding(0, cell, columns)[p - before - 2]);
    }
}

#[verifier::spinoff_prover]
proof fn lemma_gaps(cells: Seq<IndexedCell>, columns: usize, at: Seq<int>)
    requires
        is_grid(cells, columns),
        at == Seq::new(cells.len(), |i: int| cell_pos(cells, at_least_one(columns), i)),
        cells_stand_at(cells, columns, at),
    ensures
        gaps_are_blank(cells, columns, at),
{
    let text = visible_text(cells, columns);
    let glyphs = glyphs_of(cells, columns);
    if cells.len() > 0 {
        assert(cells[0].point.column < columns);
        assert(at_least_one(columns) == columns);
        lemma_first_gap(cells, columns);
        assert forall|p: int| 0 <= p < at[0] implies #[trigger] text[p] == ' ' by {
            assert(glyphs[p].ch == ' ');
        }
    }
    assert forall|i: int|
        0 < i < cells.len() && cells[i - 1].point.line == (#[trigger] cells[i]).point.line implies {
        &&& at[i] - at[i - 1] == cells[i].point.column - cells[i - 1].point.column
        &&& forall|p: int| at[i - 1] < p < at[i] ==> #[trigger] text[p] == ' '
    } by {
        lemma_gap_in_line(cells, columns, i);
        assert forall|p: int| at[i - 1] < p < at[i] implies #[trigger] text[p] == ' ' by {
            assert(glyphs[p].ch == ' ');
        }
    }
    assert forall|i: int|
        0 < i < cells.len() && cells[i - 1].point.line != (#[trigger] cells[i]).point.line implies {
        &&& at[i] - at[i - 1] == cells[i].point.column + 2
        &&& text[at[i - 1] + 1] == '\n'
        &&& forall|p: int| at[i - 1] + 1 < p < at[i] ==> #[trigger] text[p] == ' '
    } by {
        lemma_gap_between_lines(cells, columns, i);
        assert forall|p: int| at[i - 1] + 1 < p < at[i] implies #[trigger] text[p] == ' ' by {
            assert(glyphs[p].ch == ' ');
        }
    }
}

/// Each match that starts in the text makes a hit at the cell of its first byte, in order.
pub proof fn law_matches_make_hits(
    matches: Seq<(usize, Seq<char>)>,
    points: Seq<GridPoint>,
    i: int,
)
    requires
        forall|k: int| 0 <= k < matches.len() ==> (#[trigger] matches[k]).0 < points.len(),
        0 <= i < matches.len(),
    ensures
        hits_of(matches, points).len() == matches.len(),
        hits_of(matches, points)[i].start == points[matches[i].0 as int],
        hits_of(matches, points)[i].url == matches[i].1,
{
    lemma_match_makes_hit(matches, points);
}

/// The words come first, each at the cell where it starts, and the URLs behind them; where
/// only URLs are asked for there are no words.
pub proof fn law_what_a_terminal_offers(
    cells: Seq<IndexedCell>,
    columns: usize,
    mode: JumpMode,
    i: int,
)
    ensures
        ({
            let offered = candidates_of(words_in_mode(cells, mode), urls_of(cells, columns));
            let words = tokens_of(cells);
            let urls = urls_of(cells, columns);
            let before: int = if mode == JumpMode::All {
                words.len() as int
            } else {
                0
            };
            &&& offered.len() == before + urls.len()
            &&& 0 <= i < before ==> offered[i].kind == KindModel::Word && offered[i].cell
                == words[i].start
            &&& before <= i < offered.len() ==> offered[i].kind == KindModel::Url(
                urls[i - before].url,
            ) && offered[i].cell == urls[i - before].start
        }),
        cells.len() > 0 ==> urls_of(cells, columns) == hits_of(
            regex_matches(URL_REGEX@, visible_text(cells, columns)),
            visible_points(cells, columns),
        ),
        cells.len() == 0 ==> urls_of(cells, columns).len() == 0,
{
}

/// A URL is copied, whether or not the terminal is still there; the cursor goes to a word
/// only. The terminal gets the focus exactly if it is still there.
pub proof fn law_what_a_jump_does(candidate: CandidateModel, alive: bool)
    ensures
        ({
            let effect = effect_of(candidate, alive);
            &&& effect.focus == alive
            &&& candidate.kind matches KindModel::Url(url) ==> effect.copy == Some(url)
            &&& !(candidate.kind is Url) ==> effect.copy is None
            &&& effect.go_to == (if alive && !(candidate.kind is Url) {
                Some(candidate.cell)
            } else {
                None
            })
        }),
{
}

/// A match makes a hit exactly if it starts in the text, behind those before it.
pub proof fn law_one_more_match(
    matches: Seq<(usize, Seq<char>)>,
    more: (usize, Seq<char>),
    points: Seq<GridPoint>,
)
    ensures
        hits_of(Seq::<(usize, Seq<char>)>::empty(), points).len() == 0,
        hits_of(matches.push(more), points) == (if more.0 < points.len() {
            hits_of(matches, points).push(
                UrlHitModel { start: points[more.0 as int], url: more.1 },
            )
        } else {
            hits_of(matches, points)
        }),
{
    assert(matches.push(more).drop_last() =~= matches);
}

} // verus!
