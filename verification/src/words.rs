//! Words: runs of two or more word characters on one line.

use vstd::prelude::*;

verus! {

/// What a scanner needs to know of a character.
#[derive(Clone, Copy, PartialEq, Eq, Debug, Structural)]
pub struct WordMark {
    /// Whether the character can be part of a word.
    pub word: bool,
    /// Whether a new line starts with the character, so that no word goes on into it.
    pub line_start: bool,
}

/// A run of characters, from `start` to before `end`.
#[derive(Clone, Copy, PartialEq, Eq, Debug, Structural)]
pub struct WordRun {
    pub start: usize,
    pub end: usize,
}

/// Fewer characters than this are no word.
pub const MIN_WORD_CHARS: usize = 2;

/// Whether the run of word characters before `i` goes on at `i`.
pub open spec fn goes_on(marks: Seq<WordMark>, i: int) -> bool {
    0 <= i < marks.len() && marks[i].word && !marks[i].line_start
}

/// Where the run of word characters that reaches up to `i` ends.
pub open spec fn run_end(marks: Seq<WordMark>, i: int) -> int
    decreases marks.len() - i,
{
    if goes_on(marks, i) {
        run_end(marks, i + 1)
    } else {
        i
    }
}

/// The words from `i` on, where no word reaches across `i`.
pub open spec fn words_from(marks: Seq<WordMark>, i: int) -> Seq<(int, int)>
    decreases marks.len() - i,
    when 0 <= i
    via words_from_decreases
{
    if i >= marks.len() {
        Seq::empty()
    } else if marks[i].word {
        let end = run_end(marks, i + 1);
        if end - i >= MIN_WORD_CHARS {
            seq![(i, end)] + words_from(marks, end)
        } else {
            words_from(marks, end)
        }
    } else {
        words_from(marks, i + 1)
    }
}

#[via_fn]
proof fn words_from_decreases(marks: Seq<WordMark>, i: int) {
    lemma_run_end(marks, i + 1);
}

/// The words of a text, as where each starts and ends.
pub open spec fn words(marks: Seq<WordMark>) -> Seq<(int, int)> {
    words_from(marks, 0)
}

/// Whether the characters from `start` to before `end` are all of a word: word characters
/// on one line that no further word character precedes or follows on that line.
pub open spec fn is_run(marks: Seq<WordMark>, start: int, end: int) -> bool {
    &&& 0 <= start < end <= marks.len()
    &&& marks[start].word
    &&& start == 0 || !marks[start - 1].word || marks[start].line_start
    &&& forall|k: int| start < k < end ==> goes_on(marks, k)
    &&& !goes_on(marks, end)
}

proof fn lemma_run_end(marks: Seq<WordMark>, i: int)
    requires
        0 <= i,
    ensures
        i <= run_end(marks, i),
        i <= marks.len() ==> run_end(marks, i) <= marks.len(),
        forall|k: int| i <= k < run_end(marks, i) ==> goes_on(marks, k),
        !goes_on(marks, run_end(marks, i)),
    decreases marks.len() - i,
{
    if goes_on(marks, i) {
        lemma_run_end(marks, i + 1);
    }
}

/// No word reaches across a position.
spec fn is_between(marks: Seq<WordMark>, i: int) -> bool {
    i == 0 || i >= marks.len() || !marks[i - 1].word || marks[i].line_start || !marks[i].word
}

proof fn lemma_words_from(marks: Seq<WordMark>, i: int)
    requires
        0 <= i <= marks.len(),
        is_between(marks, i),
    ensures
        forall|start: int, end: int| #[trigger]
            words_from(marks, i).contains((start, end)) <==> start >= i && end - start
                >= MIN_WORD_CHARS && is_run(marks, start, end),
        forall|a: int, b: int|
            0 <= a < b < words_from(marks, i).len() ==> (#[trigger] words_from(marks, i)[a]).1 <= (
            #[trigger] words_from(marks, i)[b]).0,
    decreases marks.len() - i,
{
    let all = words_from(marks, i);
    if i < marks.len() {
        let end = if marks[i].word {
            lemma_run_end(marks, i + 1);
            run_end(marks, i + 1)
        } else {
            i + 1
        };
        lemma_words_from(marks, end);
        let rest = words_from(marks, end);
        assert forall|start: int, stop: int| start >= i && #[trigger] is_run(
            marks,
            start,
            stop,
        ) implies start >= end || (marks[i].word && start == i && stop == end) by {
            if start < end {
                if marks[i].word {
                    if start > i {
                        assert(goes_on(marks, start));
                        assert(start - 1 == i || goes_on(marks, start - 1));
                        assert(false);
                    }
                    if stop < end {
                        assert(goes_on(marks, stop));
                    }
                    if stop > end {
                        assert(goes_on(marks, end));
                    }
                } else {
                    assert(start == i);
                }
            }
        }
        if marks[i].word {
            assert(is_run(marks, i, end));
            if end - i >= MIN_WORD_CHARS {
                assert(all == seq![(i, end)] + rest);
                assert(all[0] == (i, end));
                assert forall|start: int, stop: int| #[trigger] all.contains((start, stop)) <==> (
                start, stop) == (i, end) || rest.contains((start, stop)) by {
                    if rest.contains((start, stop)) {
                        let k = rest.index_of((start, stop));
                        assert(all[k + 1] == (start, stop));
                    }
                    if all.contains((start, stop)) {
                        let k = all.index_of((start, stop));
                        if k > 0 {
                            assert(rest[k - 1] == (start, stop));
                        }
                    }
                }
                assert forall|a: int, b: int| 0 <= a < b < all.len() implies (#[trigger] all[a]).1
                    <= (#[trigger] all[b]).0 by {
                    assert(all[b] == rest[b - 1]);
                    if a > 0 {
                        assert(all[a] == rest[a - 1]);
                    } else {
                        assert(rest.contains((rest[b - 1].0, rest[b - 1].1)));
                    }
                }
            }
        }
    }
}

/// The words of a text are its runs of two or more word characters, each of them once, in
/// the order in which they stand, none overlapping another.
pub proof fn law_words_are_the_runs(marks: Seq<WordMark>)
    ensures
        forall|start: int, end: int| #[trigger]
            words(marks).contains((start, end)) <==> end - start >= MIN_WORD_CHARS && is_run(
                marks,
                start,
                end,
            ),
        forall|a: int, b: int|
            0 <= a < b < words(marks).len() ==> (#[trigger] words(marks)[a]).1 <= (
            #[trigger] words(marks)[b]).0,
{
    lemma_words_from(marks, 0);
}

/// Whether the characters from `start` to before `end` are two or more word characters in a
/// row on one line, with no word character of that line next to them.
pub open spec fn stands_alone(marks: Seq<WordMark>, start: int, end: int) -> bool {
    &&& 0 <= start && start + 2 <= end <= marks.len()
    &&& forall|k: int| start <= k < end ==> (#[trigger] marks[k]).word
    &&& forall|k: int| start < k < end ==> !(#[trigger] marks[k]).line_start
    &&& start > 0 && marks[start - 1].word ==> marks[start].line_start
    &&& end < marks.len() && marks[end].word ==> marks[end].line_start
}

/// A piece of a text is one of its words exactly if it stands alone.
pub proof fn law_words_stand_alone(marks: Seq<WordMark>, start: int, end: int)
    ensures
        words(marks).contains((start, end)) <==> stands_alone(marks, start, end),
{
    law_words_are_the_runs(marks);
    if words(marks).contains((start, end)) {
        assert forall|k: int| start <= k < end implies (#[trigger] marks[k]).word by {
            assert(k == start || goes_on(marks, k));
        }
        assert forall|k: int| start < k < end implies !(#[trigger] marks[k]).line_start by {
            assert(goes_on(marks, k));
        }
    }
}

/// What a run of characters is.
pub open spec fn run_model(run: WordRun) -> (int, int) {
    (run.start as int, run.end as int)
}

/// Returns the words of a text.
pub fn word_runs(marks: &Vec<WordMark>) -> (res: Vec<WordRun>)
    ensures
        res@.map_values(|run: WordRun| run_model(run)) == words(marks@),
        forall|k: int|
            0 <= k < res@.len() ==> (#[trigger] res@[k]).start < res@[k].end && res@[k].end
                <= marks@.len(),
{
    let mut res: Vec<WordRun> = Vec::new();
    let mut i: usize = 0;
    assert(res@.map_values(|run: WordRun| run_model(run)) + words_from(marks@, 0) =~= words(marks@));
    while i < marks.len()
        invariant
            i <= marks@.len(),
            res@.map_values(|run: WordRun| run_model(run)) + words_from(marks@, i as int) == words(
                marks@,
            ),
            forall|k: int|
                0 <= k < res@.len() ==> (#[trigger] res@[k]).start < res@[k].end && res@[k].end
                    <= marks@.len(),
        decreases marks@.len() - i,
    {
        let start = i;
        let ghost before = res@.map_values(|run: WordRun| run_model(run));
        i += 1;
        if marks[start].word {
            while i < marks.len() && marks[i].word && !marks[i].line_start
                invariant
                    start < i <= marks@.len(),
                    run_end(marks@, i as int) == run_end(marks@, start + 1),
                decreases marks@.len() - i,
            {
                i += 1;
            }
            if i - start >= MIN_WORD_CHARS {
                res.push(WordRun { start, end: i });
                proof {
                    let after = res@.map_values(|run: WordRun| run_model(run));
                    assert(after =~= before.push((start as int, i as int)));
                    assert(after + words_from(marks@, i as int) =~= before + (seq![
                        (start as int, i as int),
                    ] + words_from(marks@, i as int)));
                }
            }
        }
    }
    assert(res@.map_values(|run: WordRun| run_model(run)) + words_from(marks@, i as int)
        =~= res@.map_values(|run: WordRun| run_model(run)));
    res
}

} // verus!
