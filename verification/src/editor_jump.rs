//! What a jump can go to in an editor: the words and the URLs that are on the screen.

use vstd::prelude::*;
use vstd::string::*;
use vstd::utf8::*;

use crate::jump;
use crate::jump::EffectModel;
use crate::jump::JumpEffect;
use crate::jump::JumpKind;
use crate::jump::JumpMode;
use crate::jump::KindModel;
use crate::text;
use crate::words;
use crate::words::WordMark;
use crate::words::WordRun;

verus! {

/// The side to which an anchor keeps when text is put where it is.
#[derive(Clone, Copy, PartialEq, Eq, Debug, Structural)]
pub enum Bias {
    /// It stays before the new text.
    Left,
    /// It moves behind the new text.
    Right,
}

/// A place in a buffer that moves with the text around it.
#[derive(Clone, Copy, PartialEq, Eq, Debug, Structural)]
pub struct BufferAnchor {
    pub offset: usize,
    pub bias: Bias,
}

/// A piece of a buffer that moves with its text.
#[derive(Clone, Copy, PartialEq, Eq, Debug, Structural)]
pub struct AnchorRange {
    pub start: BufferAnchor,
    pub end: BufferAnchor,
}

/// A piece of a buffer, from the byte `start` to before the byte `end`.
#[derive(Clone, Copy, PartialEq, Eq, Debug, Structural)]
pub struct OffsetRange {
    pub start: usize,
    pub end: usize,
}

/// A URL and where it stands.
#[derive(Debug)]
pub struct UrlRange {
    pub range: AnchorRange,
    pub url: String,
}

/// What a [`UrlRange`] holds.
#[verifier::ext_equal]
pub struct UrlRangeModel {
    pub range: AnchorRange,
    pub url: Seq<char>,
}

impl View for UrlRange {
    type V = UrlRangeModel;

    open spec fn view(&self) -> UrlRangeModel {
        UrlRangeModel { range: self.range, url: self.url@ }
    }
}

/// What URLs hold.
pub open spec fn url_models(urls: Seq<UrlRange>) -> Seq<UrlRangeModel> {
    urls.map_values(|url: UrlRange| url@)
}

/// Whether a character can be part of a word.
pub open spec fn jump_word_char(ch: char) -> bool {
    ch == '_' || text::alphanumeric(ch)
}

/// Whether a character can be part of a word: it is a letter, a number or `_`.
pub fn is_jump_word_char(ch: char) -> (res: bool)
    ensures
        res == jump_word_char(ch),
        ch as u32 <= 0x7f ==> res == (ch == '_' || text::ascii_alphanumeric(ch)),
{
    ch == '_' || text::is_alphanumeric(ch)
}

/// The text that chunks make up.
pub open spec fn joined(chunks: Seq<String>) -> Seq<char>
    decreases chunks.len(),
{
    if chunks.len() == 0 {
        Seq::empty()
    } else {
        joined(chunks.drop_last()) + chunks.last()@
    }
}

/// Whether the chunks are the text of a range.
pub open spec fn chunks_fill(chunks: Seq<String>, range: OffsetRange) -> bool {
    range.start < range.end ==> range.start + text::byte_len(joined(chunks)) == range.end
}

/// What the word scanner needs to know of a text.
pub open spec fn marks_of(text: Seq<char>) -> Seq<WordMark> {
    text.map_values(|ch: char| WordMark { word: jump_word_char(ch), line_start: false })
}

/// The byte of the buffer at which the character at `i` of a text starts, where the text
/// starts at the byte `start`.
pub open spec fn offset_at(text: Seq<char>, start: usize, i: int) -> usize {
    (start + text::byte_len(text.take(i))) as usize
}

/// The words of a text that starts at the byte `start` of a buffer.
pub open spec fn word_ranges(text: Seq<char>, start: usize) -> Seq<AnchorRange> {
    words::words(marks_of(text)).map_values(
        |word: (int, int)|
            AnchorRange {
                start: BufferAnchor { offset: offset_at(text, start, word.0), bias: Bias::Right },
                end: BufferAnchor { offset: offset_at(text, start, word.1), bias: Bias::Right },
            },
    )
}

/// The words of a range; an empty range has none.
pub open spec fn words_in_range(chunks: Seq<String>, range: OffsetRange) -> Seq<AnchorRange> {
    if range.start >= range.end {
        Seq::empty()
    } else {
        word_ranges(joined(chunks), range.start)
    }
}

/// Tells for each character of a text whether it can be part of a word, and at which byte
/// of the buffer it starts; the last byte is where the text ends.
fn scan(chunks: &Vec<String>, range: OffsetRange) -> (res: (Vec<WordMark>, Vec<usize>))
    requires
        range.start + text::byte_len(joined(chunks@)) <= usize::MAX,
    ensures
        res.0@ == marks_of(joined(chunks@)),
        res.1@.len() == joined(chunks@).len() + 1,
        forall|i: int|
            0 <= i <= joined(chunks@).len() ==> #[trigger] res.1@[i] == offset_at(
                joined(chunks@),
                range.start,
                i,
            ),
{
    broadcast use axiom_spec_iter;

    let ghost whole = joined(chunks@);
    let mut marks: Vec<WordMark> = Vec::new();
    let mut offsets: Vec<usize> = Vec::new();
    let mut offset: usize = range.start;
    offsets.push(offset);
    let mut k: usize = 0;
    proof {
        assert(joined(chunks@.take(0)) =~= whole.take(0));
        assert(marks@ =~= marks_of(whole.take(0)));
    }
    while k < chunks.len()
        invariant
            k <= chunks@.len(),
            whole == joined(chunks@),
            range.start + text::byte_len(whole) <= usize::MAX,
            marks@ == marks_of(joined(chunks@.take(k as int))),
            offsets@.len() == marks@.len() + 1,
            offset == offsets@.last(),
            offset == range.start + text::byte_len(joined(chunks@.take(k as int))),
            forall|i: int|
                0 <= i < offsets@.len() ==> #[trigger] offsets@[i] == offset_at(
                    joined(chunks@.take(k as int)),
                    range.start,
                    i,
                ),
        decreases chunks@.len() - k,
    {
        let ghost done = joined(chunks@.take(k as int));
        let ghost next = joined(chunks@.take(k + 1));
        let ghost chunk = chunks@[k as int]@;
        proof {
            assert(chunks@.take(k + 1).drop_last() =~= chunks@.take(k as int));
            assert(next == done + chunk);
            lemma_joined_prefix(chunks@, k + 1);
            assert(next.take(done.len() as int) =~= done);
            lemma_offsets_of_prefix(done, next, range.start);
        }
        let piece = chunks[k].as_str();
        for ch in it: piece.chars()
            invariant
                chunk == piece@,
                it.seq() == chunk,
                next == done + chunk,
                range.start + text::byte_len(next) <= usize::MAX,
                marks@ == marks_of(next.take(done.len() + it.index())),
                offsets@.len() == done.len() + it.index() + 1,
                offset == offsets@.last(),
                offset == range.start + text::byte_len(next.take(done.len() + it.index())),
                forall|i: int|
                    0 <= i < offsets@.len() ==> #[trigger] offsets@[i] == offset_at(
                        next,
                        range.start,
                        i,
                    ),
        {
            let ghost at = done.len() + it.index();
            proof {
                assert(ch == next[at]);
                assert(next.take(at + 1) =~= next.take(at).push(ch));
                text::lemma_bytes_of_push(next.take(at), ch);
                text::lemma_bytes_of_prefix(next, at + 1);
            }
            marks.push(WordMark { word: is_jump_word_char(ch), line_start: false });
            offset = offset + text::char_width(ch);
            offsets.push(offset);
            assert(marks@ =~= marks_of(next.take(at + 1)));
        }
        proof {
            assert(next.take((done.len() + chunk.len()) as int) =~= next);
        }
        k += 1;
    }
    assert(chunks@.take(k as int) =~= chunks@);
    (marks, offsets)
}

proof fn lemma_joined_prefix(chunks: Seq<String>, k: int)
    requires
        0 <= k <= chunks.len(),
    ensures
        text::byte_len(joined(chunks.take(k))) <= text::byte_len(joined(chunks)),
    decreases chunks.len() - k,
{
    if k < chunks.len() {
        lemma_joined_prefix(chunks, k + 1);
        assert(chunks.take(k + 1).drop_last() =~= chunks.take(k));
        text::law_bytes_of_concatenation(joined(chunks.take(k)), chunks[k]@);
    } else {
        assert(chunks.take(k) =~= chunks);
    }
}

proof fn lemma_offsets_of_prefix(prefix: Seq<char>, whole: Seq<char>, start: usize)
    requires
        prefix.len() <= whole.len(),
        whole.take(prefix.len() as int) == prefix,
    ensures
        forall|i: int|
            0 <= i <= prefix.len() ==> #[trigger] offset_at(prefix, start, i) == offset_at(
                whole,
                start,
                i,
            ),
{
    assert forall|i: int| 0 <= i <= prefix.len() implies #[trigger] offset_at(prefix, start, i)
        == offset_at(whole, start, i) by {
        assert(prefix.take(i) =~= whole.take(i));
    }
}

/// Returns where each word of a range stands; `chunks` is the text of the range. A word is
/// a run of two or more letters, numbers and `_`.
pub fn visible_word_anchors(chunks: &Vec<String>, range: OffsetRange) -> (res: Vec<AnchorRange>)
    requires
        chunks_fill(chunks@, range),
    ensures
        res@ == words_in_range(chunks@, range),
{
    if range.start >= range.end {
        return Vec::new();
    }
    let (marks, offsets) = scan(chunks, range);
    let res = anchor_words(&marks, &offsets);
    proof {
        let text = joined(chunks@);
        let models = words::words(marks@);
        words::law_words_are_the_runs(marks@);
        assert forall|k: int| 0 <= k < models.len() implies words_at(marks@, offsets@)[k]
            == #[trigger] word_ranges(text, range.start)[k] by {
            assert(models.contains((models[k].0, models[k].1)));
        }
        assert(res@ =~= word_ranges(text, range.start));
    }
    res
}

/// The words of a text, where `marks` says which characters can be part of one and
/// `offsets` at which byte of the buffer each character starts.
pub open spec fn words_at(marks: Seq<WordMark>, offsets: Seq<usize>) -> Seq<AnchorRange> {
    words::words(marks).map_values(
        |word: (int, int)|
            AnchorRange {
                start: BufferAnchor { offset: offsets[word.0], bias: Bias::Right },
                end: BufferAnchor { offset: offsets[word.1], bias: Bias::Right },
            },
    )
}

/// Returns where each word of a text stands, where `marks` says which characters can be
/// part of one and `offsets` at which byte of the buffer each character starts and the text
/// ends.
pub fn anchor_words(marks: &Vec<WordMark>, offsets: &Vec<usize>) -> (res: Vec<AnchorRange>)
    requires
        offsets@.len() == marks@.len() + 1,
    ensures
        res@ == words_at(marks@, offsets@),
{
    let mut res: Vec<AnchorRange> = Vec::new();
    let runs = words::word_runs(marks);
    let ghost models = words::words(marks@);
    let mut k: usize = 0;
    while k < runs.len()
        invariant
            k <= runs@.len(),
            models == words::words(marks@),
            offsets@.len() == marks@.len() + 1,
            runs@.map_values(|run: WordRun| words::run_model(run)) == models,
            forall|j: int|
                0 <= j < runs@.len() ==> (#[trigger] runs@[j]).start < runs@[j].end && runs@[j].end
                    <= marks@.len(),
            res@ == words_at(marks@, offsets@).take(k as int),
        decreases runs@.len() - k,
    {
        let run = runs[k];
        assert(models[k as int] == words::run_model(run));
        res.push(
            AnchorRange {
                start: BufferAnchor { offset: offsets[run.start], bias: Bias::Right },
                end: BufferAnchor { offset: offsets[run.end], bias: Bias::Right },
            },
        );
        assert(res@ =~= words_at(marks@, offsets@).take(k + 1));
        k += 1;
    }
    assert(res@ =~= words_at(marks@, offsets@));
    res
}

/// Every word of a range stands inside the range, and each ends before the next starts.
pub proof fn law_words_stand_in_range(chunks: Seq<String>, range: OffsetRange, i: int)
    requires
        chunks_fill(chunks, range),
        0 <= i < words_in_range(chunks, range).len(),
    ensures
        ({
            let found = words_in_range(chunks, range);
            &&& range.start <= found[i].start.offset < found[i].end.offset <= range.end
            &&& forall|j: int|
                i < j < found.len() ==> found[i].end.offset <= (#[trigger] found[j]).start.offset
        }),
{
    let text = joined(chunks);
    let models = words::words(marks_of(text));
    let found = words_in_range(chunks, range);
    words::law_words_are_the_runs(marks_of(text));
    assert(models.contains((models[i].0, models[i].1)));
    text::lemma_longer_prefix(text, models[i].0, models[i].1);
    text::lemma_bytes_of_prefix(text, models[i].1);
    assert forall|j: int| i < j < found.len() implies found[i].end.offset <= (
    #[trigger] found[j]).start.offset by {
        assert(models.contains((models[j].0, models[j].1)));
        assert(models[i].1 <= models[j].0);
        text::lemma_bytes_of_prefix(text, models[j].0);
        if models[i].1 < models[j].0 {
            text::lemma_longer_prefix(text, models[i].1, models[j].0);
        }
    }
}

/// The URLs in a text, as where each starts, where it ends, and itself.
pub uninterp spec fn linkify_urls(text: Seq<char>) -> Seq<(usize, usize, Seq<char>)>;

/// Collects the links that [`linkify::LinkFinder::links`] yields, with URLs as the only
/// kind of link. They depend on the text alone. Each is the piece of the text from its
/// start to its end, none is empty, because a link has a scheme and what separates it from
/// the rest, and each ends before the next starts.
#[verifier::external_body]
fn find_links(text: &str) -> (res: Vec<(usize, usize, String)>)
    ensures
        res.deep_view() == linkify_urls(text@),
        forall|i: int|
            0 <= i < res@.len() ==> (#[trigger] res@[i]).0 < res@[i].1 && res@[i].1
                <= text::byte_len(text@) && encode_utf8(res@[i].2@) == encode_utf8(text@).subrange(
                res@[i].0 as int,
                res@[i].1 as int,
            ),
        forall|i: int, j: int|
            0 <= i < j < res@.len() ==> (#[trigger] res@[i]).1 <= (#[trigger] res@[j]).0,
{
    let mut finder = linkify::LinkFinder::new();
    finder.kinds(&[linkify::LinkKind::Url]);
    finder.links(text).map(|link| (link.start(), link.end(), link.as_str().to_string())).collect()
}

/// Where links stand in a buffer, in a text that starts at the byte `start`.
pub open spec fn links_at(links: Seq<(usize, usize, Seq<char>)>, start: usize) -> Seq<
    UrlRangeModel,
> {
    links.map_values(
        |link: (usize, usize, Seq<char>)|
            UrlRangeModel {
                range: AnchorRange {
                    start: BufferAnchor { offset: (start + link.0) as usize, bias: Bias::Left },
                    end: BufferAnchor { offset: (start + link.1) as usize, bias: Bias::Right },
                },
                url: link.2,
            },
    )
}

/// The URLs of a range; an empty range has none.
pub open spec fn urls_in_range(chunks: Seq<String>, range: OffsetRange) -> Seq<UrlRangeModel> {
    if range.start >= range.end {
        Seq::empty()
    } else {
        links_at(linkify_urls(joined(chunks)), range.start)
    }
}

/// Returns where links stand in a buffer, in a text that starts at the byte `start`.
pub fn place_links(links: &Vec<(usize, usize, String)>, start: usize) -> (res: Vec<UrlRange>)
    requires
        forall|i: int|
            0 <= i < links@.len() ==> start + (#[trigger] links@[i]).0 <= usize::MAX && start
                + links@[i].1 <= usize::MAX,
    ensures
        url_models(res@) == links_at(links.deep_view(), start),
{
    let mut res: Vec<UrlRange> = Vec::new();
    let ghost all = links_at(links.deep_view(), start);
    let mut i: usize = 0;
    while i < links.len()
        invariant
            i <= links@.len(),
            all == links_at(links.deep_view(), start),
            forall|i: int|
                0 <= i < links@.len() ==> start + (#[trigger] links@[i]).0 <= usize::MAX && start
                    + links@[i].1 <= usize::MAX,
            url_models(res@) == all.take(i as int),
        decreases links@.len() - i,
    {
        let ghost before = url_models(res@);
        let link = &links[i];
        let range = AnchorRange {
            start: BufferAnchor { offset: start + link.0, bias: Bias::Left },
            end: BufferAnchor { offset: start + link.1, bias: Bias::Right },
        };
        res.push(UrlRange { range, url: link.2.clone() });
        proof {
            assert(links.deep_view()[i as int] == (
                links@[i as int].0,
                links@[i as int].1,
                links@[i as int].2@,
            ));
            assert(url_models(res@) =~= before.push(all[i as int]));
            assert(url_models(res@) =~= all.take(i + 1));
        }
        i += 1;
    }
    assert(url_models(res@) =~= all);
    res
}

/// Returns the text that chunks make up.
fn join(chunks: &Vec<String>) -> (res: String)
    ensures
        res@ == joined(chunks@),
{
    let mut res = String::new();
    let mut k: usize = 0;
    assert(res@ =~= joined(chunks@.take(0)));
    while k < chunks.len()
        invariant
            k <= chunks@.len(),
            res@ == joined(chunks@.take(k as int)),
        decreases chunks@.len() - k,
    {
        assert(chunks@.take(k + 1).drop_last() =~= chunks@.take(k as int));
        res.append(chunks[k].as_str());
        k += 1;
    }
    assert(chunks@.take(k as int) =~= chunks@);
    res
}

/// Returns every URL of a range with where it stands; `chunks` is the text of the range.
/// Each is the piece of the text that stands there, and each ends before the next starts.
pub fn find_urls_in_range(chunks: &Vec<String>, range: OffsetRange) -> (res: Vec<UrlRange>)
    requires
        chunks_fill(chunks@, range),
    ensures
        url_models(res@) == urls_in_range(chunks@, range),
        forall|i: int|
            0 <= i < res@.len() ==> range.start <= (#[trigger] res@[i]).range.start.offset
                < res@[i].range.end.offset <= range.end && encode_utf8(res@[i].url@)
                == encode_utf8(joined(chunks@)).subrange(
                res@[i].range.start.offset - range.start,
                res@[i].range.end.offset - range.start,
            ),
        forall|i: int, j: int|
            0 <= i < j < res@.len() ==> (#[trigger] res@[i]).range.end.offset <= (
            #[trigger] res@[j]).range.start.offset,
{
    if range.start >= range.end {
        let res: Vec<UrlRange> = Vec::new();
        assert(url_models(res@) =~= Seq::empty());
        return res;
    }
    let text = join(chunks);
    let links = find_links(text.as_str());
    let res = place_links(&links, range.start);
    proof {
        let found = links.deep_view();
        assert(url_models(res@).len() == res@.len());
        assert(links_at(found, range.start).len() == found.len());
        assert forall|i: int, j: int| 0 <= i < j < res@.len() implies (
        #[trigger] res@[i]).range.end.offset <= (#[trigger] res@[j]).range.start.offset by {
            assert(url_models(res@)[i] == res@[i]@);
            assert(url_models(res@)[j] == res@[j]@);
            assert(found[i] == (links@[i].0, links@[i].1, links@[i].2@));
            assert(found[j] == (links@[j].0, links@[j].1, links@[j].2@));
        }
        assert forall|i: int| 0 <= i < res@.len() implies range.start <= (
        #[trigger] res@[i]).range.start.offset < res@[i].range.end.offset <= range.end
            && encode_utf8(res@[i].url@) == encode_utf8(joined(chunks@)).subrange(
            res@[i].range.start.offset - range.start,
            res@[i].range.end.offset - range.start,
        ) by {
            assert(url_models(res@)[i] == res@[i]@);
            assert(links_at(found, range.start)[i].url == found[i].2);
            assert(found[i] == (links@[i].0, links@[i].1, links@[i].2@));
        }
    }
    res
}

/// A place on the display: a row and a column in it.
#[derive(Clone, Copy, PartialEq, Eq, Debug, Structural)]
pub struct DisplayPoint {
    pub row: u32,
    pub column: u32,
}

/// What an editor remembers of how it was painted.
#[derive(Debug)]
pub struct PositionMap {
    /// The first row on the screen.
    pub first_row: u32,
    /// The row after the last one on the screen.
    pub end_row: u32,
    /// How many rows are laid out, from the first row on the screen on.
    pub line_count: usize,
    /// The piece of the buffer that is on the screen.
    pub range: OffsetRange,
    /// The text of that piece.
    pub chunks: Vec<String>,
}

/// An editor as it was painted last.
#[derive(Debug)]
pub struct EditorPaint {
    pub is_minimap: bool,
    pub position_map: Option<PositionMap>,
    /// How long ago that was, in nanoseconds, if it was painted at all.
    pub age_nanos: Option<u128>,
}

/// Where on the screen a candidate is drawn.
#[derive(Clone, Copy, PartialEq, Eq, Debug, Structural)]
pub struct LinePlace {
    pub row: u32,
    /// The row, counted from the first one on the screen.
    pub row_ix: usize,
    pub column: u32,
}

/// A place in an editor to jump to.
#[derive(Debug)]
pub struct ResolvedCandidate {
    pub kind: JumpKind,
    pub anchor_range: AnchorRange,
    pub place: LinePlace,
}

/// What a [`ResolvedCandidate`] holds.
#[verifier::ext_equal]
pub struct ResolvedModel {
    pub kind: KindModel,
    pub anchor_range: AnchorRange,
    pub place: LinePlace,
}

impl View for ResolvedCandidate {
    type V = ResolvedModel;

    open spec fn view(&self) -> ResolvedModel {
        ResolvedModel {
            kind: self.kind@,
            anchor_range: self.anchor_range,
            place: self.place,
        }
    }
}

/// What candidates hold.
pub open spec fn resolved_models(candidates: Seq<ResolvedCandidate>) -> Seq<ResolvedModel> {
    candidates.map_values(|candidate: ResolvedCandidate| candidate@)
}

/// Where on the screen a display point is drawn; `None` where its row is not on the screen
/// or not laid out.
pub open spec fn place_of(map: PositionMap, point: DisplayPoint) -> Option<LinePlace> {
    if map.first_row <= point.row < map.end_row && point.row - map.first_row < map.line_count {
        Some(
            LinePlace {
                row: point.row,
                row_ix: (point.row - map.first_row) as usize,
                column: point.column,
            },
        )
    } else {
        None
    }
}

/// The candidates for pieces of a buffer, where `display` tells where an anchor is on the
/// display. Those that are not on the screen are dropped.
pub open spec fn resolved(
    map: PositionMap,
    targets: Seq<(KindModel, AnchorRange)>,
    display: spec_fn(BufferAnchor) -> DisplayPoint,
) -> Seq<ResolvedModel>
    decreases targets.len(),
{
    if targets.len() == 0 {
        Seq::empty()
    } else {
        let before = resolved(map, targets.drop_last(), display);
        let (kind, anchor_range) = targets.last();
        match place_of(map, display(anchor_range.start)) {
            Some(place) => before.push(ResolvedModel { kind, anchor_range, place }),
            None => before,
        }
    }
}

/// Words, and then URLs, as what a jump goes to.
pub open spec fn targets_of(words: Seq<AnchorRange>, urls: Seq<UrlRangeModel>) -> Seq<
    (KindModel, AnchorRange),
> {
    words.map_values(|word: AnchorRange| (KindModel::Word, word)) + urls.map_values(
        |url: UrlRangeModel| (KindModel::Url(url.url), url.range),
    )
}

/// A lookup that answers as `f` does.
pub open spec fn displays<F: Fn(&BufferAnchor) -> DisplayPoint>(
    to_display: F,
    f: spec_fn(BufferAnchor) -> DisplayPoint,
) -> bool {
    forall|anchor: BufferAnchor, point: DisplayPoint| #[trigger]
        call_ensures(to_display, (&anchor,), point) ==> point == f(anchor)
}

/// A candidate is kept only where its row is on the screen, and the row is counted from
/// the first one there.
pub proof fn law_candidates_are_on_screen(
    map: PositionMap,
    targets: Seq<(KindModel, AnchorRange)>,
    display: spec_fn(BufferAnchor) -> DisplayPoint,
    i: int,
)
    requires
        0 <= i < resolved(map, targets, display).len(),
    ensures
        ({
            let candidate = resolved(map, targets, display)[i];
            &&& targets.contains((candidate.kind, candidate.anchor_range))
            &&& place_of(map, display(candidate.anchor_range.start)) == Some(candidate.place)
            &&& map.first_row <= candidate.place.row < map.end_row
            &&& candidate.place.row == map.first_row + candidate.place.row_ix
            &&& candidate.place.row_ix < map.line_count
        }),
    decreases targets.len(),
{
    let rest = targets.drop_last();
    let before = resolved(map, rest, display);
    let candidate = resolved(map, targets, display)[i];
    if i < before.len() {
        law_candidates_are_on_screen(map, rest, display, i);
        let k = rest.index_of((candidate.kind, candidate.anchor_range));
        assert(targets[k] == (candidate.kind, candidate.anchor_range));
    } else {
        assert(targets.last() == (candidate.kind, candidate.anchor_range));
    }
}

/// Every target whose row is on the screen is offered.
pub proof fn law_targets_on_screen_are_offered(
    map: PositionMap,
    targets: Seq<(KindModel, AnchorRange)>,
    display: spec_fn(BufferAnchor) -> DisplayPoint,
    k: int,
)
    requires
        0 <= k < targets.len(),
        place_of(map, display(targets[k].1.start)) is Some,
    ensures
        resolved(map, targets, display).contains(
            ResolvedModel {
                kind: targets[k].0,
                anchor_range: targets[k].1,
                place: place_of(map, display(targets[k].1.start))->0,
            },
        ),
    decreases targets.len(),
{
    let rest = targets.drop_last();
    let before = resolved(map, rest, display);
    let all = resolved(map, targets, display);
    if k < rest.len() {
        law_targets_on_screen_are_offered(map, rest, display, k);
        let at = before.index_of(
            ResolvedModel {
                kind: targets[k].0,
                anchor_range: targets[k].1,
                place: place_of(map, display(targets[k].1.start))->0,
            },
        );
        assert(all[at] == before[at]);
    } else {
        assert(all[before.len() as int] == all.last());
    }
}

impl PositionMap {
    /// Returns where on the screen a display point is drawn.
    pub fn place(&self, point: DisplayPoint) -> (res: Option<LinePlace>)
        ensures
            res == place_of(*self, point),
    {
        if point.row < self.first_row || point.row >= self.end_row {
            return None;
        }
        let row_ix: usize = (point.row - self.first_row) as usize;
        if row_ix < self.line_count {
            Some(LinePlace { row: point.row, row_ix, column: point.column })
        } else {
            None
        }
    }
}

/// Returns the candidates for words and for URLs, in this order; `to_display` tells where
/// an anchor is on the display. Those that are not on the screen are dropped.
pub fn resolve<F: Fn(&BufferAnchor) -> DisplayPoint>(
    map: &PositionMap,
    words: &Vec<AnchorRange>,
    urls: &Vec<UrlRange>,
    to_display: &F,
) -> (res: Vec<ResolvedCandidate>)
    requires
        forall|anchor: BufferAnchor| #[trigger] call_requires(to_display, (&anchor,)),
    ensures
        forall|f: spec_fn(BufferAnchor) -> DisplayPoint| #[trigger]
            displays(*to_display, f) ==> resolved_models(res@) == resolved(
                *map,
                targets_of(words@, url_models(urls@)),
                f,
            ),
{
    let mut res: Vec<ResolvedCandidate> = Vec::new();
    let ghost all = targets_of(words@, url_models(urls@));
    let mut i: usize = 0;
    assert(resolved_models(res@) =~= Seq::empty());
    while i < words.len()
        invariant
            i <= words@.len(),
            all == targets_of(words@, url_models(urls@)),
            forall|anchor: BufferAnchor| #[trigger] call_requires(to_display, (&anchor,)),
            forall|f: spec_fn(BufferAnchor) -> DisplayPoint| #[trigger]
                displays(*to_display, f) ==> resolved_models(res@) == resolved(
                    *map,
                    all.take(i as int),
                    f,
                ),
        decreases words@.len() - i,
    {
        let ghost before = resolved_models(res@);
        let anchor_range = words[i];
        let place = map.place(to_display(&anchor_range.start));
        assert(all.take(i + 1).drop_last() =~= all.take(i as int));
        assert(all.take(i + 1).last() == (KindModel::Word, anchor_range));
        if let Some(place) = place {
            res.push(ResolvedCandidate { kind: JumpKind::Word, anchor_range, place });
            assert(resolved_models(res@) =~= before.push(
                ResolvedModel { kind: KindModel::Word, anchor_range, place },
            ));
        }
        i += 1;
    }
    let mut j: usize = 0;
    while j < urls.len()
        invariant
            j <= urls@.len(),
            all == targets_of(words@, url_models(urls@)),
            forall|anchor: BufferAnchor| #[trigger] call_requires(to_display, (&anchor,)),
            forall|f: spec_fn(BufferAnchor) -> DisplayPoint| #[trigger]
                displays(*to_display, f) ==> resolved_models(res@) == resolved(
                    *map,
                    all.take(words@.len() + j),
                    f,
                ),
        decreases urls@.len() - j,
    {
        let ghost before = resolved_models(res@);
        let ghost at = words@.len() + j;
        let anchor_range = urls[j].range;
        let place = map.place(to_display(&anchor_range.start));
        assert(all.take(at + 1).drop_last() =~= all.take(at));
        assert(url_models(urls@)[j as int] == urls@[j as int]@);
        assert(all.take(at + 1).last() == (KindModel::Url(urls@[j as int].url@), anchor_range));
        if let Some(place) = place {
            let url = urls[j].url.clone();
            res.push(ResolvedCandidate { kind: JumpKind::Url(url), anchor_range, place });
            assert(resolved_models(res@) =~= before.push(
                ResolvedModel { kind: KindModel::Url(url@), anchor_range, place },
            ));
        }
        j += 1;
    }
    assert(all.take(words@.len() + j) =~= all);
    res
}

/// The pieces of an editor that a mode asks for.
pub open spec fn targets_in_mode(map: PositionMap, mode: JumpMode) -> Seq<
    (KindModel, AnchorRange),
> {
    targets_of(
        if mode == JumpMode::Url {
            Seq::empty()
        } else {
            words_in_range(map.chunks@, map.range)
        },
        urls_in_range(map.chunks@, map.range),
    )
}

proof fn lemma_resolved_parts(
    map: PositionMap,
    a: Seq<(KindModel, AnchorRange)>,
    b: Seq<(KindModel, AnchorRange)>,
    display: spec_fn(BufferAnchor) -> DisplayPoint,
)
    ensures
        resolved(map, a + b, display) == resolved(map, a, display) + resolved(map, b, display),
    decreases b.len(),
{
    if b.len() == 0 {
        assert(a + b =~= a);
        assert(resolved(map, a, display) + resolved(map, b, display) =~= resolved(map, a, display));
    } else {
        lemma_resolved_parts(map, a, b.drop_last(), display);
        assert((a + b).drop_last() =~= a + b.drop_last());
        assert((a + b).last() == b.last());
        assert(resolved(map, a + b, display) =~= resolved(map, a, display) + resolved(
            map,
            b,
            display,
        ));
    }
}

/// The candidates for the words of a range, as far as they are on the screen.
pub open spec fn word_candidates(
    map: PositionMap,
    display: spec_fn(BufferAnchor) -> DisplayPoint,
) -> Seq<ResolvedModel> {
    resolved(
        map,
        words_in_range(map.chunks@, map.range).map_values(
            |word: AnchorRange| (KindModel::Word, word),
        ),
        display,
    )
}

/// The candidates of an editor are those for its words and, behind them, just what there is
/// when only URLs are asked for.
pub proof fn law_words_come_before_urls(
    map: PositionMap,
    display: spec_fn(BufferAnchor) -> DisplayPoint,
)
    ensures
        resolved(map, targets_in_mode(map, JumpMode::All), display) == word_candidates(map, display)
            + resolved(map, targets_in_mode(map, JumpMode::Url), display),
        forall|i: int|
            0 <= i < word_candidates(map, display).len() ==> (#[trigger] word_candidates(
                map,
                display,
            )[i]).kind == KindModel::Word,
        forall|i: int|
            0 <= i < resolved(map, targets_in_mode(map, JumpMode::Url), display).len() ==> (
            #[trigger] resolved(map, targets_in_mode(map, JumpMode::Url), display)[i]).kind is Url,
{
    let words = words_in_range(map.chunks@, map.range).map_values(
        |word: AnchorRange| (KindModel::Word, word),
    );
    let urls = urls_in_range(map.chunks@, map.range).map_values(
        |url: UrlRangeModel| (KindModel::Url(url.url), url.range),
    );
    assert(targets_in_mode(map, JumpMode::All) =~= words + urls);
    assert(targets_in_mode(map, JumpMode::Url) =~= urls);
    lemma_resolved_parts(map, words, urls, display);
    assert forall|i: int| 0 <= i < word_candidates(map, display).len() implies (
    #[trigger] word_candidates(map, display)[i]).kind == KindModel::Word by {
        law_candidates_are_on_screen(map, words, display, i);
    }
    assert forall|i: int| 0 <= i < resolved(map, urls, display).len() implies (
    #[trigger] resolved(map, urls, display)[i]).kind is Url by {
        law_candidates_are_on_screen(map, urls, display, i);
    }
}

/// Whether there is anything to jump to in an editor: it is no minimap and is on the
/// screen.
pub open spec fn is_shown(paint: EditorPaint) -> bool {
    !paint.is_minimap && paint.position_map is Some && jump::on_screen(paint.age_nanos)
}

/// Returns the places to jump to in an editor: its words, unless only URLs are asked for,
/// and its URLs, as far as they are on the screen. `to_display` tells where an anchor is
/// on the display.
pub fn collect_for_editor<F: Fn(&BufferAnchor) -> DisplayPoint>(
    paint: &EditorPaint,
    mode: JumpMode,
    to_display: &F,
) -> (res: Vec<ResolvedCandidate>)
    requires
        paint.position_map matches Some(map) ==> chunks_fill(map.chunks@, map.range),
        forall|anchor: BufferAnchor| #[trigger] call_requires(to_display, (&anchor,)),
    ensures
        !is_shown(*paint) ==> res@.len() == 0,
        is_shown(*paint) ==> forall|f: spec_fn(BufferAnchor) -> DisplayPoint| #[trigger]
            displays(*to_display, f) ==> resolved_models(res@) == resolved(
                paint.position_map->0,
                targets_in_mode(paint.position_map->0, mode),
                f,
            ),
{
    if paint.is_minimap {
        return Vec::new();
    }
    let Some(map) = &paint.position_map else {
        return Vec::new();
    };
    if !jump::is_on_screen(paint.age_nanos) {
        return Vec::new();
    }
    let words = if mode == JumpMode::Url {
        Vec::new()
    } else {
        visible_word_anchors(&map.chunks, map.range)
    };
    let urls = find_urls_in_range(&map.chunks, map.range);
    resolve(map, &words, &urls, to_display)
}

/// Returns the places to jump to in an editor; none where it is gone.
pub fn collect<F: Fn(&BufferAnchor) -> DisplayPoint>(
    editor: Option<&EditorPaint>,
    mode: JumpMode,
    to_display: &F,
) -> (res: Vec<ResolvedCandidate>)
    requires
        editor matches Some(paint) ==> (paint.position_map matches Some(map) ==> chunks_fill(
            map.chunks@,
            map.range,
        )),
        forall|anchor: BufferAnchor| #[trigger] call_requires(to_display, (&anchor,)),
    ensures
        editor is None || !is_shown(*editor->0) ==> res@.len() == 0,
        editor matches Some(paint) ==> is_shown(*paint) ==> forall|
            f: spec_fn(BufferAnchor) -> DisplayPoint,
        | #[trigger]
            displays(*to_display, f) ==> resolved_models(res@) == resolved(
                paint.position_map->0,
                targets_in_mode(paint.position_map->0, mode),
                f,
            ),
{
    match editor {
        Some(paint) => collect_for_editor(paint, mode, to_display),
        None => Vec::new(),
    }
}

/// What a jump does.
pub open spec fn effect_of(candidate: ResolvedModel, editor_alive: bool) -> EffectModel<
    BufferAnchor,
> {
    if !editor_alive {
        EffectModel { copy: None, focus: false, go_to: None }
    } else {
        match candidate.kind {
            KindModel::Url(url) => EffectModel { copy: Some(url), focus: false, go_to: None },
            _ => EffectModel {
                copy: None,
                focus: true,
                go_to: Some(candidate.anchor_range.start),
            },
        }
    }
}

impl ResolvedCandidate {
    /// Returns what a jump here does, as long as the editor is there: a URL is copied; for
    /// anything else the editor gets the focus and the cursor goes to the start.
    pub fn jump(&self, editor_alive: bool) -> (res: JumpEffect<BufferAnchor>)
        ensures
            res@ == effect_of(self@, editor_alive),
    {
        if !editor_alive {
            return JumpEffect { copy: None, focus: false, go_to: None };
        }
        match &self.kind {
            JumpKind::Url(url) => JumpEffect {
                copy: Some(url.clone()),
                focus: false,
                go_to: None,
            },
            _ => JumpEffect {
                copy: None,
                focus: true,
                go_to: Some(self.anchor_range.start),
            },
        }
    }
}

} // verus!
