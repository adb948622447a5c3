//! Which words and URLs of an editor are offered, told by the rows in which they are shown.

use vstd::prelude::*;

use crate::editor_jump;
use crate::editor_jump::AnchorRange;
use crate::editor_jump::Bias;
use crate::editor_jump::BufferAnchor;
use crate::editor_jump::DisplayPoint;
use crate::editor_jump::EditorPaint;
use crate::editor_jump::LinePlace;
use crate::editor_jump::OffsetRange;
use crate::editor_jump::PositionMap;
use crate::editor_jump::ResolvedModel;
use crate::editor_jump::UrlRangeModel;
use crate::jump::JumpMode;
use crate::jump::KindModel;
use crate::text;
use crate::words;

verus! {

/// Whether a row is on the screen and laid out.
pub open spec fn row_is_shown(map: PositionMap, row: u32) -> bool {
    map.first_row <= row < map.end_row && row - map.first_row < map.line_count
}

/// Whether numbers are, in ascending order and each once, those of the targets that are
/// displayed in a row that is shown.
pub open spec fn names_shown(
    from: Seq<nat>,
    map: PositionMap,
    targets: Seq<(KindModel, AnchorRange)>,
    display: spec_fn(BufferAnchor) -> DisplayPoint,
) -> bool {
    &&& forall|a: int, b: int| 0 <= a < b < from.len() ==> #[trigger] from[a] < #[trigger] from[b]
    &&& forall|e: int|
        0 <= e < from.len() ==> (#[trigger] from[e]) < targets.len() && row_is_shown(
            map,
            display(targets[from[e] as int].1.start).row,
        )
    &&& forall|k: int|
        0 <= k < targets.len() && row_is_shown(map, display((#[trigger] targets[k]).1.start).row)
            ==> from.contains(k as nat)
}

/// Whether a candidate is a target, drawn in the row and at the column where it is displayed;
/// the row is counted from the first one on the screen.
pub open spec fn is_drawn_at(
    candidate: ResolvedModel,
    map: PositionMap,
    target: (KindModel, AnchorRange),
    point: DisplayPoint,
) -> bool {
    &&& candidate.kind == target.0
    &&& candidate.anchor_range == target.1
    &&& candidate.place.row == point.row
    &&& candidate.place.row_ix == point.row - map.first_row
    &&& candidate.place.column == point.column
}

/// Whether candidates are the targets with the given numbers, in order.
pub open spec fn candidates_belong(
    candidates: Seq<ResolvedModel>,
    from: Seq<nat>,
    map: PositionMap,
    targets: Seq<(KindModel, AnchorRange)>,
    display: spec_fn(BufferAnchor) -> DisplayPoint,
) -> bool {
    &&& names_shown(from, map, targets, display)
    &&& candidates.len() == from.len()
    &&& forall|e: int|
        0 <= e < candidates.len() ==> is_drawn_at(
            #[trigger] candidates[e],
            map,
            targets[from[e] as int],
            display(targets[from[e] as int].1.start),
        )
}

/// The numbers of the targets that are displayed in a row that is shown.
spec fn shown(
    map: PositionMap,
    targets: Seq<(KindModel, AnchorRange)>,
    display: spec_fn(BufferAnchor) -> DisplayPoint,
) -> Seq<nat>
    decreases targets.len(),
{
    if targets.len() == 0 {
        Seq::empty()
    } else {
        let before = shown(map, targets.drop_last(), display);
        if row_is_shown(map, display(targets.last().1.start).row) {
            before.push((targets.len() - 1) as nat)
        } else {
            before
        }
    }
}

proof fn lemma_shown(
    map: PositionMap,
    targets: Seq<(KindModel, AnchorRange)>,
    display: spec_fn(BufferAnchor) -> DisplayPoint,
)
    ensures
        candidates_belong(
            editor_jump::resolved(map, targets, display),
            shown(map, targets, display),
            map,
            targets,
            display,
        ),
    decreases targets.len(),
{
    if targets.len() > 0 {
        let rest = targets.drop_last();
        lemma_shown(map, rest, display);
        let before = shown(map, rest, display);
        let from = shown(map, targets, display);
        let earlier = editor_jump::resolved(map, rest, display);
        let candidates = editor_jump::resolved(map, targets, display);
        assert forall|e: int| 0 <= e < from.len() implies (#[trigger] from[e]) < targets.len()
            && row_is_shown(map, display(targets[from[e] as int].1.start).row) by {
            if e < before.len() {
                assert(from[e] == before[e]);
                assert(rest[before[e] as int] == targets[before[e] as int]);
            }
        }
        assert forall|k: int|
            0 <= k < targets.len() && row_is_shown(
                map,
                display((#[trigger] targets[k]).1.start).row,
            ) implies from.contains(k as nat) by {
            if k < rest.len() {
                assert(rest[k] == targets[k]);
                let e = before.index_of(k as nat);
                assert(from[e] == k);
            } else {
                assert(from[from.len() - 1] == k);
            }
        }
        assert forall|e: int| 0 <= e < candidates.len() implies is_drawn_at(
            #[trigger] candidates[e],
            map,
            targets[from[e] as int],
            display(targets[from[e] as int].1.start),
        ) by {
            if e < earlier.len() {
                assert(candidates[e] == earlier[e]);
                assert(from[e] == before[e]);
                assert(rest[before[e] as int] == targets[before[e] as int]);
            }
        }
    }
}

/// The candidates go one to one, in order, to the targets whose start is displayed in a row
/// that is on the screen and laid out: each is drawn in that row, at its column.
pub proof fn law_candidates_are_the_shown_targets(
    map: PositionMap,
    targets: Seq<(KindModel, AnchorRange)>,
    display: spec_fn(BufferAnchor) -> DisplayPoint,
)
    ensures
        exists|from: Seq<nat>| #[trigger]
            candidates_belong(
                editor_jump::resolved(map, targets, display),
                from,
                map,
                targets,
                display,
            ),
{
    lemma_shown(map, targets, display);
}

/// Every target whose start is displayed in a row that is on the screen and laid out is
/// offered, in that row and at its column.
pub proof fn law_shown_target_is_offered(
    map: PositionMap,
    targets: Seq<(KindModel, AnchorRange)>,
    display: spec_fn(BufferAnchor) -> DisplayPoint,
    k: int,
)
    requires
        0 <= k < targets.len(),
        map.first_row <= display(targets[k].1.start).row < map.end_row,
        display(targets[k].1.start).row - map.first_row < map.line_count,
    ensures
        editor_jump::resolved(map, targets, display).contains(
            ResolvedModel {
                kind: targets[k].0,
                anchor_range: targets[k].1,
                place: LinePlace {
                    row: display(targets[k].1.start).row,
                    row_ix: (display(targets[k].1.start).row - map.first_row) as usize,
                    column: display(targets[k].1.start).column,
                },
            },
        ),
{
    lemma_shown(map, targets, display);
    let from = shown(map, targets, display);
    assert(from.contains(k as nat));
    let e = from.index_of(k as nat);
    let candidate = editor_jump::resolved(map, targets, display)[e];
    assert(is_drawn_at(candidate, map, targets[k], display(targets[k].1.start)));
}

/// Whether a character can be part of a word in an editor: it is a letter, a number or `_`.
pub open spec fn is_word_char(c: char) -> bool {
    c == '_' || text::alphanumeric(c)
}

/// Whether the characters from `start` to before `end` are two or more word characters with
/// no word character next to them.
pub open spec fn word_alone(text: Seq<char>, start: int, end: int) -> bool {
    &&& 0 <= start && start + 2 <= end <= text.len()
    &&& forall|k: int| start <= k < end ==> is_word_char(#[trigger] text[k])
    &&& start > 0 ==> !is_word_char(text[start - 1])
    &&& end < text.len() ==> !is_word_char(text[end])
}

/// Whether a piece of a buffer is what stands from `start` to before `end` in a text whose
/// first byte is at `from`; both ends move behind text that is put there.
pub open spec fn is_piece(
    piece: AnchorRange,
    text: Seq<char>,
    from: usize,
    start: int,
    end: int,
) -> bool {
    &&& piece.start.offset == from + text::byte_len(text.take(start))
    &&& piece.end.offset == from + text::byte_len(text.take(end))
    &&& piece.start.bias == Bias::Right
    &&& piece.end.bias == Bias::Right
}

/// Whether a piece of a buffer is a word of a text whose first byte is at `from`.
pub open spec fn is_word_piece(piece: AnchorRange, text: Seq<char>, from: usize) -> bool {
    exists|start: int, end: int| #[trigger]
        word_alone(text, start, end) && is_piece(piece, text, from, start, end)
}

proof fn lemma_word_alone(text: Seq<char>, start: int, end: int)
    ensures
        words::words(editor_jump::marks_of(text)).contains((start, end)) <==> word_alone(
            text,
            start,
            end,
        ),
{
    let marks = editor_jump::marks_of(text);
    words::law_words_stand_alone(marks, start, end);
    if words::stands_alone(marks, start, end) {
        assert forall|k: int| start <= k < end implies is_word_char(#[trigger] text[k]) by {
            assert(marks[k].word);
        }
    }
    if word_alone(text, start, end) {
        assert forall|k: int| start <= k < end implies (#[trigger] marks[k]).word by {
            assert(is_word_char(text[k]));
        }
    }
}

/// The words of a range are just the pieces of its text that are words, each where it stands.
pub proof fn law_words_of_a_range(
    chunks: Seq<String>,
    range: OffsetRange,
    start: int,
    end: int,
)
    requires
        editor_jump::chunks_fill(chunks, range),
    ensures
        range.start < range.end && word_alone(editor_jump::joined(chunks), start, end) ==> exists|
            i: int,
        |
            0 <= i < editor_jump::words_in_range(chunks, range).len() && is_piece(
                #[trigger] editor_jump::words_in_range(chunks, range)[i],
                editor_jump::joined(chunks),
                range.start,
                start,
                end,
            ),
        forall|i: int|
            0 <= i < editor_jump::words_in_range(chunks, range).len() ==> range.start < range.end
                && is_word_piece(
                #[trigger] editor_jump::words_in_range(chunks, range)[i],
                editor_jump::joined(chunks),
                range.start,
            ),
{
    let text = editor_jump::joined(chunks);
    let found = editor_jump::words_in_range(chunks, range);
    let models = words::words(editor_jump::marks_of(text));
    lemma_word_alone(text, start, end);
    if range.start < range.end && word_alone(text, start, end) {
        let i = models.index_of((start, end));
        text::lemma_bytes_of_prefix(text, start);
        text::lemma_bytes_of_prefix(text, end);
        assert(is_piece(found[i], text, range.start, start, end));
    }
    assert forall|i: int| 0 <= i < found.len() implies range.start < range.end && is_word_piece(
        #[trigger] found[i],
        text,
        range.start,
    ) by {
        let (a, b) = models[i];
        assert(models.contains((a, b)));
        lemma_word_alone(text, a, b);
        text::lemma_bytes_of_prefix(text, a);
        text::lemma_bytes_of_prefix(text, b);
        assert(word_alone(text, a, b) && is_piece(found[i], text, range.start, a, b));
    }
}

/// Each link is offered where it stands, counted from the first byte of the text: it starts
/// before text that is put there and ends behind it.
pub proof fn law_links_stand_where_they_were_found(
    links: Seq<(usize, usize, Seq<char>)>,
    start: usize,
    i: int,
)
    requires
        0 <= i < links.len(),
        start + links[i].0 <= usize::MAX,
        start + links[i].1 <= usize::MAX,
    ensures
        ({
            let placed = editor_jump::links_at(links, start);
            &&& placed.len() == links.len()
            &&& placed[i].url == links[i].2
            &&& placed[i].range.start.offset == start + links[i].0
            &&& placed[i].range.end.offset == start + links[i].1
            &&& placed[i].range.start.bias == Bias::Left
            &&& placed[i].range.end.bias == Bias::Right
        }),
{
}

/// What is looked for in an editor: where everything is asked for, its words and behind them
/// its URLs, each with the kind it is; else its URLs only.
pub proof fn law_what_a_mode_asks_for(map: PositionMap, mode: JumpMode, i: int)
    ensures
        ({
            let targets = editor_jump::targets_in_mode(map, mode);
            let words = editor_jump::words_in_range(map.chunks@, map.range);
            let urls = editor_jump::urls_in_range(map.chunks@, map.range);
            let before: int = if mode == JumpMode::All {
                words.len() as int
            } else {
                0
            };
            &&& targets.len() == before + urls.len()
            &&& 0 <= i < before ==> targets[i] == (KindModel::Word, words[i])
            &&& before <= i < targets.len() ==> targets[i] == (
                KindModel::Url(urls[i - before].url),
                urls[i - before].range,
            )
        }),
{
}

/// Every word of an editor whose start is displayed in a row that is on the screen and laid
/// out is offered where everything is asked for, in that row and at its column.
pub proof fn law_shown_words_are_offered(
    map: PositionMap,
    display: spec_fn(BufferAnchor) -> DisplayPoint,
    start: int,
    end: int,
    word: AnchorRange,
)
    requires
        editor_jump::chunks_fill(map.chunks@, map.range),
        map.range.start < map.range.end,
        word_alone(editor_jump::joined(map.chunks@), start, end),
        is_piece(word, editor_jump::joined(map.chunks@), map.range.start, start, end),
        map.first_row <= display(word.start).row < map.end_row,
        display(word.start).row - map.first_row < map.line_count,
    ensures
        editor_jump::resolved(
            map,
            editor_jump::targets_in_mode(map, JumpMode::All),
            display,
        ).contains(
            ResolvedModel {
                kind: KindModel::Word,
                anchor_range: word,
                place: LinePlace {
                    row: display(word.start).row,
                    row_ix: (display(word.start).row - map.first_row) as usize,
                    column: display(word.start).column,
                },
            },
        ),
{
    let chunks = map.chunks@;
    let found = editor_jump::words_in_range(chunks, map.range);
    law_words_of_a_range(chunks, map.range, start, end);
    let i = choose|i: int|
        0 <= i < found.len() && is_piece(
            #[trigger] found[i],
            editor_jump::joined(chunks),
            map.range.start,
            start,
            end,
        );
    assert(found[i] == word);
    law_what_a_mode_asks_for(map, JumpMode::All, i);
    law_shown_target_is_offered(
        map,
        editor_jump::targets_in_mode(map, JumpMode::All),
        display,
        i,
    );
}

/// Every URL of an editor whose start is displayed in a row that is on the screen and laid
/// out is offered, whatever is asked for, in that row and at its column.
pub proof fn law_shown_urls_are_offered(
    map: PositionMap,
    mode: JumpMode,
    display: spec_fn(BufferAnchor) -> DisplayPoint,
    url: UrlRangeModel,
)
    requires
        editor_jump::urls_in_range(map.chunks@, map.range).contains(url),
        map.first_row <= display(url.range.start).row < map.end_row,
        display(url.range.start).row - map.first_row < map.line_count,
    ensures
        editor_jump::resolved(map, editor_jump::targets_in_mode(map, mode), display).contains(
            ResolvedModel {
                kind: KindModel::Url(url.url),
                anchor_range: url.range,
                place: LinePlace {
                    row: display(url.range.start).row,
                    row_ix: (display(url.range.start).row - map.first_row) as usize,
                    column: display(url.range.start).column,
                },
            },
        ),
{
    let urls = editor_jump::urls_in_range(map.chunks@, map.range);
    let words = editor_jump::words_in_range(map.chunks@, map.range);
    let k = urls.index_of(url);
    let before: int = if mode == JumpMode::All {
        words.len() as int
    } else {
        0
    };
    law_what_a_mode_asks_for(map, mode, before + k);
    law_shown_target_is_offered(
        map,
        editor_jump::targets_in_mode(map, mode),
        display,
        before + k,
    );
}

/// The URLs of a range are the links of its text, each as far behind the start of the range as
/// it stands in the text; an empty range has none.
pub proof fn law_urls_of_a_range(chunks: Seq<String>, range: OffsetRange)
    ensures
        range.start < range.end ==> editor_jump::urls_in_range(chunks, range)
            == editor_jump::links_at(
            editor_jump::linkify_urls(editor_jump::joined(chunks)),
            range.start,
        ),
        range.start >= range.end ==> editor_jump::urls_in_range(chunks, range).len() == 0
            && editor_jump::words_in_range(chunks, range).len() == 0,
{
}

/// There is something to jump to in an editor exactly if it is no minimap and was painted no
/// longer than a quarter of a second ago.
pub proof fn law_which_editors_are_shown(paint: EditorPaint)
    ensures
        editor_jump::is_shown(paint) <==> !paint.is_minimap && paint.position_map is Some && (
        paint.age_nanos matches Some(age) && age <= 250_000_000),
{
}

/// A jump to a URL copies it and moves nothing; any other jump focuses the editor and puts
/// the cursor at the start of the piece. In an editor that is gone nothing happens.
pub proof fn law_what_a_jump_does(candidate: ResolvedModel, alive: bool)
    ensures
        ({
            let effect = editor_jump::effect_of(candidate, alive);
            &&& effect.copy is Some <==> alive && candidate.kind is Url
            &&& alive ==> (candidate.kind matches KindModel::Url(url) ==> effect.copy == Some(url))
            &&& effect.focus <==> alive && !(candidate.kind is Url)
            &&& effect.go_to == (if alive && !(candidate.kind is Url) {
                Some(candidate.anchor_range.start)
            } else {
                None
            })
        }),
{
}

/// A lookup that answers as a function does is asked for the anchor.
pub proof fn law_what_a_lookup_is_asked<F: Fn(&BufferAnchor) -> DisplayPoint>(
    to_display: F,
    f: spec_fn(BufferAnchor) -> DisplayPoint,
    anchor: BufferAnchor,
    point: DisplayPoint,
)
    requires
        editor_jump::displays(to_display, f),
        call_ensures(to_display, (&anchor,), point),
    ensures
        point == f(anchor),
{
}

/// The text of a range is its chunks, one after the other.
pub proof fn law_chunks_are_joined(chunks: Seq<String>, more: String)
    ensures
        editor_jump::joined(Seq::<String>::empty()).len() == 0,
        editor_jump::joined(chunks.push(more)) == editor_jump::joined(chunks) + more@,
{
    assert(chunks.push(more).drop_last() =~= chunks);
}

} // verus!
