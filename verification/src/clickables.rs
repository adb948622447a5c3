//! The registry of what was painted that can be clicked.

use vstd::prelude::*;

use crate::pane_group::tree::PixelBounds;
use crate::vectors;

verus! {

/// What was painted so many nanoseconds ago, or longer, is not on the screen any more.
pub const ENTRY_FRESHNESS_NANOS: u128 = 250_000_000;

/// From this many entries on, stale ones are dropped before another one is added.
pub const SOFT_CAP: usize = 10_000;

/// A rectangle in whole pixels: two paintings of one element have the same, although the
/// layout may shift the element by less than a pixel.
#[derive(Clone, Copy, PartialEq, Eq, Hash, Debug, Structural)]
pub struct BoundsKey {
    pub x: i32,
    pub y: i32,
    pub w: i32,
    pub h: i32,
}

/// A painted element that can be clicked; `A` is what a click does.
#[derive(Debug)]
pub struct ClickableEntry<A> {
    pub bounds: PixelBounds,
    /// The bounds in whole pixels.
    pub key: BoundsKey,
    pub on_click: A,
    /// When it was painted, in nanoseconds.
    pub painted_at: u128,
}

/// What was painted that can be clicked, in the order in which it was registered.
#[derive(Debug)]
pub struct ClickableRegistry<A> {
    pub entries: Vec<ClickableEntry<A>>,
}

/// Whether an entry is still on the screen.
pub open spec fn is_fresh<A>(entry: ClickableEntry<A>, now: u128) -> bool {
    now - entry.painted_at < ENTRY_FRESHNESS_NANOS
}

/// The entries that are still on the screen.
pub open spec fn fresh_entries<A>(entries: Seq<ClickableEntry<A>>, now: u128) -> Seq<
    ClickableEntry<A>,
>
    decreases entries.len(),
{
    if entries.len() == 0 {
        Seq::empty()
    } else {
        let before = fresh_entries(entries.drop_last(), now);
        if is_fresh(entries.last(), now) {
            before.push(entries.last())
        } else {
            before
        }
    }
}

/// Whether the entry at `j` takes the place of the one at `i`: it is for the same
/// rectangle and was painted later, or at the same time and registered later.
pub open spec fn supersedes<A>(entries: Seq<ClickableEntry<A>>, j: int, i: int) -> bool {
    &&& entries[j].key == entries[i].key
    &&& entries[j].painted_at > entries[i].painted_at || (entries[j].painted_at
        == entries[i].painted_at && j > i)
}

/// Whether the entry at `i` is the latest one for its rectangle.
pub open spec fn is_latest<A>(entries: Seq<ClickableEntry<A>>, i: int) -> bool {
    forall|j: int| 0 <= j < entries.len() ==> !#[trigger] supersedes(entries, j, i)
}

/// Whether the entry at `i` is handed out: it is still on the screen and is the latest one
/// for its rectangle.
pub open spec fn is_taken<A>(entries: Seq<ClickableEntry<A>>, i: int, now: u128) -> bool {
    is_fresh(entries[i], now) && is_latest(entries, i)
}

/// Which of the first `n` entries are handed out, in order.
pub open spec fn taken<A>(entries: Seq<ClickableEntry<A>>, now: u128, n: nat) -> Seq<int>
    decreases n,
{
    if n == 0 {
        Seq::empty()
    } else {
        let before = taken(entries, now, (n - 1) as nat);
        if is_taken(entries, n - 1, now) {
            before.push(n - 1)
        } else {
            before
        }
    }
}

/// What is handed out: for every rectangle on the screen, what was painted there last.
pub open spec fn clickables<A>(entries: Seq<ClickableEntry<A>>, now: u128) -> Seq<(PixelBounds, A)> {
    taken(entries, now, entries.len()).map_values(
        |i: int| (entries[i].bounds, entries[i].on_click),
    )
}

proof fn lemma_taken<A>(entries: Seq<ClickableEntry<A>>, now: u128, n: nat)
    requires
        n <= entries.len(),
    ensures
        forall|i: int| #[trigger]
            taken(entries, now, n).contains(i) <==> 0 <= i < n && is_taken(entries, i, now),
        forall|a: int, b: int|
            0 <= a < b < taken(entries, now, n).len() ==> #[trigger] taken(entries, now, n)[a]
                < #[trigger] taken(entries, now, n)[b],
    decreases n,
{
    if n > 0 {
        let before = taken(entries, now, (n - 1) as nat);
        let all = taken(entries, now, n);
        lemma_taken(entries, now, (n - 1) as nat);
        assert forall|i: int| #[trigger] all.contains(i) <==> 0 <= i < n && is_taken(
            entries,
            i,
            now,
        ) by {
            if all.contains(i) {
                let k = all.index_of(i);
                if k < before.len() {
                    assert(before[k] == i);
                    assert(before.contains(i));
                }
            }
            if 0 <= i < n && is_taken(entries, i, now) {
                if i < n - 1 {
                    assert(before.contains(i));
                    let k = before.index_of(i);
                    assert(all[k] == i);
                } else {
                    assert(all.last() == i);
                }
            }
        }
        assert forall|a: int, b: int| 0 <= a < b < all.len() implies #[trigger] all[a]
            < #[trigger] all[b] by {
            if b < before.len() {
                assert(all[a] == before[a] && all[b] == before[b]);
            } else {
                assert(all[a] == before[a]);
                assert(before.contains(before[a]));
            }
        }
    }
}

/// No two of the entries that are handed out are for the same rectangle.
pub proof fn law_one_clickable_for_a_rectangle<A>(
    entries: Seq<ClickableEntry<A>>,
    now: u128,
    a: int,
    b: int,
)
    requires
        0 <= a < b < taken(entries, now, entries.len()).len(),
    ensures
        entries[taken(entries, now, entries.len())[a]].key != entries[taken(
            entries,
            now,
            entries.len(),
        )[b]].key,
{
    let all = taken(entries, now, entries.len());
    lemma_taken(entries, now, entries.len());
    let (i, j) = (all[a], all[b]);
    assert(all.contains(i) && all.contains(j));
    assert(!supersedes(entries, i, j));
    assert(!supersedes(entries, j, i));
}

/// The latest of the entries for a rectangle, among the first `n`.
spec fn latest<A>(entries: Seq<ClickableEntry<A>>, key: BoundsKey, n: nat) -> int
    decreases n,
{
    if n == 0 {
        -1
    } else {
        let before = latest(entries, key, (n - 1) as nat);
        if entries[n - 1].key != key {
            before
        } else if before < 0 || entries[n - 1].painted_at >= entries[before].painted_at {
            n - 1
        } else {
            before
        }
    }
}

proof fn lemma_latest<A>(entries: Seq<ClickableEntry<A>>, key: BoundsKey, n: nat)
    requires
        n <= entries.len(),
    ensures
        -1 <= latest(entries, key, n) < n,
        latest(entries, key, n) >= 0 ==> entries[latest(entries, key, n)].key == key,
        forall|j: int|
            0 <= j < n && (#[trigger] entries[j]).key == key ==> latest(entries, key, n) >= 0
                && !supersedes(entries, j, latest(entries, key, n)),
    decreases n,
{
    if n > 0 {
        lemma_latest(entries, key, (n - 1) as nat);
    }
}

/// For every entry that is still on the screen, one for its rectangle is handed out that
/// was painted no earlier.
pub proof fn law_fresh_rectangles_are_handed_out<A>(
    entries: Seq<ClickableEntry<A>>,
    now: u128,
    i: int,
) -> (k: int)
    requires
        0 <= i < entries.len(),
        is_fresh(entries[i], now),
    ensures
        taken(entries, now, entries.len()).contains(k),
        0 <= k < entries.len(),
        is_fresh(entries[k], now),
        entries[k].key == entries[i].key,
        entries[k].painted_at >= entries[i].painted_at,
{
    let key = entries[i].key;
    let k = latest(entries, key, entries.len());
    lemma_latest(entries, key, entries.len());
    assert(!supersedes(entries, i, k));
    assert forall|j: int| 0 <= j < entries.len() implies !#[trigger] supersedes(entries, j, k) by {
        if entries[j].key == key {
        }
    }
    lemma_taken(entries, now, entries.len());
    assert(is_taken(entries, k, now));
    k
}

/// Whether numbers are, in ascending order and each once, those of the entries that were
/// painted less than a quarter of a second ago and after which nothing was painted, or
/// registered as painted at the same time, in the same rectangle.
pub open spec fn names_latest<A>(
    from: Seq<int>,
    entries: Seq<ClickableEntry<A>>,
    now: u128,
) -> bool {
    &&& forall|a: int, b: int| 0 <= a < b < from.len() ==> #[trigger] from[a] < #[trigger] from[b]
    &&& forall|i: int| #[trigger]
        from.contains(i) <==> {
            &&& 0 <= i < entries.len()
            &&& now - entries[i].painted_at < 250_000_000
            &&& forall|j: int|
                0 <= j < entries.len() && (#[trigger] entries[j]).key == entries[i].key ==> {
                    ||| entries[j].painted_at < entries[i].painted_at
                    ||| entries[j].painted_at == entries[i].painted_at && j <= i
                }
        }
}

/// Whether what is handed out is, in order, what the entries with the given numbers are for.
pub open spec fn handed_out<A>(
    handed: Seq<(PixelBounds, A)>,
    from: Seq<int>,
    entries: Seq<ClickableEntry<A>>,
) -> bool {
    &&& handed.len() == from.len()
    &&& forall|e: int|
        0 <= e < handed.len() ==> (#[trigger] handed[e]).0 == entries[from[e]].bounds
            && handed[e].1 == entries[from[e]].on_click
}

/// What is handed out is what was painted last in each rectangle, as long as that was less
/// than a quarter of a second ago, in the order in which it was registered.
pub proof fn law_latest_paint_is_handed_out<A>(entries: Seq<ClickableEntry<A>>, now: u128)
    ensures
        exists|from: Seq<int>| #[trigger]
            names_latest(from, entries, now) && handed_out(clickables(entries, now), from, entries),
{
    let from = taken(entries, now, entries.len());
    lemma_taken(entries, now, entries.len());
    assert forall|i: int| #[trigger] from.contains(i) <==> {
        &&& 0 <= i < entries.len()
        &&& now - entries[i].painted_at < 250_000_000
        &&& forall|j: int|
            0 <= j < entries.len() && (#[trigger] entries[j]).key == entries[i].key ==> {
                ||| entries[j].painted_at < entries[i].painted_at
                ||| entries[j].painted_at == entries[i].painted_at && j <= i
            }
    } by {
        if from.contains(i) {
            assert forall|j: int|
                0 <= j < entries.len() && (#[trigger] entries[j]).key == entries[i].key implies {
                ||| entries[j].painted_at < entries[i].painted_at
                ||| entries[j].painted_at == entries[i].painted_at && j <= i
            } by {
                assert(!supersedes(entries, j, i));
            }
        } else if 0 <= i < entries.len() && now - entries[i].painted_at < 250_000_000 {
            assert(!is_latest(entries, i));
            let j = choose|j: int| 0 <= j < entries.len() && #[trigger] supersedes(entries, j, i);
            assert(entries[j].key == entries[i].key);
        }
    }
    assert(names_latest(from, entries, now));
    assert(handed_out(clickables(entries, now), from, entries));
}

/// Dropping stale entries keeps just those that were painted less than a quarter of a second
/// ago, in order; entries are dropped from ten thousand on only.
pub proof fn law_stale_entries_are_dropped<A>(
    entries: Seq<ClickableEntry<A>>,
    entry: ClickableEntry<A>,
    now: u128,
)
    ensures
        fresh_entries(Seq::<ClickableEntry<A>>::empty(), now).len() == 0,
        fresh_entries(entries.push(entry), now) == (if now - entry.painted_at < 250_000_000 {
            fresh_entries(entries, now).push(entry)
        } else {
            fresh_entries(entries, now)
        }),
        SOFT_CAP == 10_000,
{
    assert(entries.push(entry).drop_last() =~= entries);
}

/// Whether an entry is still on the screen.
fn still_fresh<A>(entry: &ClickableEntry<A>, now: u128) -> (res: bool)
    ensures
        res == is_fresh(*entry, now),
{
    if now >= entry.painted_at {
        now - entry.painted_at < ENTRY_FRESHNESS_NANOS
    } else {
        true
    }
}

/// Whether the entry at `i` is the latest one for its rectangle.
fn latest_at<A>(entries: &Vec<ClickableEntry<A>>, i: usize) -> (res: bool)
    requires
        i < entries@.len(),
    ensures
        res == is_latest(entries@, i as int),
{
    let key = entries[i].key;
    let painted_at = entries[i].painted_at;
    let mut j: usize = 0;
    while j < entries.len()
        invariant
            i < entries@.len(),
            key == entries@[i as int].key,
            painted_at == entries@[i as int].painted_at,
            j <= entries@.len(),
            forall|k: int| 0 <= k < j ==> !#[trigger] supersedes(entries@, k, i as int),
        decreases entries@.len() - j,
    {
        let other = &entries[j];
        if other.key == key && (other.painted_at > painted_at || (other.painted_at == painted_at
            && j > i)) {
            assert(supersedes(entries@, j as int, i as int));
            return false;
        }
        j += 1;
    }
    true
}

impl<A> ClickableRegistry<A> {
    /// A registry of nothing.
    pub fn new() -> (res: ClickableRegistry<A>)
        ensures
            res.entries@.len() == 0,
    {
        ClickableRegistry { entries: Vec::new() }
    }

    /// Drops the entries that are not on the screen any more.
    fn drop_stale(&mut self, now: u128)
        ensures
            final(self).entries@ == fresh_entries(old(self).entries@, now),
    {
        let ghost all = self.entries@;
        let mut waiting: Vec<ClickableEntry<A>> = Vec::new();
        core::mem::swap(&mut waiting, &mut self.entries);
        let mut kept: Vec<ClickableEntry<A>> = Vec::new();
        assert(all.take(all.len() as int) =~= all);
        assert(fresh_entries(all, now) + kept@.reverse() =~= fresh_entries(all, now));
        while waiting.len() > 0
            invariant
                waiting@ == all.take(waiting@.len() as int),
                waiting@.len() <= all.len(),
                fresh_entries(waiting@, now) + kept@.reverse() == fresh_entries(all, now),
            decreases waiting@.len(),
        {
            let ghost before = waiting@;
            let ghost had = kept@;
            if let Some(entry) = waiting.pop() {
                assert(waiting@ =~= before.drop_last());
                if still_fresh(&entry, now) {
                    kept.push(entry);
                    assert(fresh_entries(waiting@, now) + kept@.reverse() =~= fresh_entries(
                        before,
                        now,
                    ) + had.reverse());
                }
            }
        }
        assert(fresh_entries(waiting@, now) + kept@.reverse() =~= kept@.reverse());
        self.entries = vectors::turn(kept);
    }
}

/// Which entries are handed out.
fn marks_of<A>(entries: &Vec<ClickableEntry<A>>, now: u128) -> (res: Vec<bool>)
    ensures
        res@.len() == entries@.len(),
        forall|i: int| 0 <= i < entries@.len() ==> #[trigger] res@[i] == is_taken(entries@, i, now),
{
    let mut res: Vec<bool> = Vec::new();
    let mut i: usize = 0;
    while i < entries.len()
        invariant
            i <= entries@.len(),
            res@.len() == i,
            forall|k: int| 0 <= k < i ==> #[trigger] res@[k] == is_taken(entries@, k, now),
        decreases entries@.len() - i,
    {
        let take = still_fresh(&entries[i], now) && latest_at(entries, i);
        res.push(take);
        i += 1;
    }
    res
}

/// Empties the registry and hands out, for every rectangle on the screen, what was painted
/// there last.
pub fn take_clickables<A>(registry: &mut ClickableRegistry<A>, now: u128) -> (res: Vec<
    (PixelBounds, A),
>)
    ensures
        final(registry).entries@.len() == 0,
        res@ == clickables(old(registry).entries@, now),
{
    let ghost all = registry.entries@;
    let mut waiting: Vec<ClickableEntry<A>> = Vec::new();
    core::mem::swap(&mut waiting, &mut registry.entries);
    let marks = marks_of(&waiting, now);
    let mut kept: Vec<(PixelBounds, A)> = Vec::new();
    let ghost pick = |i: int| (all[i].bounds, all[i].on_click);
    assert(all.take(all.len() as int) =~= all);
    assert(taken(all, now, all.len()).map_values(pick) + kept@.reverse() =~= clickables(all, now));
    while waiting.len() > 0
        invariant
            waiting@ == all.take(waiting@.len() as int),
            waiting@.len() <= all.len(),
            marks@.len() == all.len(),
            forall|i: int| 0 <= i < all.len() ==> #[trigger] marks@[i] == is_taken(all, i, now),
            pick == (|i: int| (all[i].bounds, all[i].on_click)),
            taken(all, now, waiting@.len()).map_values(pick) + kept@.reverse() == clickables(
                all,
                now,
            ),
        decreases waiting@.len(),
    {
        let ghost n = waiting@.len() as int;
        let ghost had = kept@;
        if let Some(entry) = waiting.pop() {
            assert(waiting@ =~= all.take(n - 1));
            if marks[waiting.len()] {
                kept.push((entry.bounds, entry.on_click));
                proof {
                    let before = taken(all, now, (n - 1) as nat);
                    assert(taken(all, now, n as nat) == before.push(n - 1));
                    assert(before.push(n - 1).map_values(pick) =~= before.map_values(pick).push(
                        pick(n - 1),
                    ));
                    assert(before.map_values(pick) + kept@.reverse() =~= before.map_values(
                        pick,
                    ).push(pick(n - 1)) + had.reverse());
                }
            }
        }
    }
    assert(taken(all, now, 0).map_values(pick) + kept@.reverse() =~= kept@.reverse());
    vectors::turn(kept)
}

/// Registers an entry. Stale ones are dropped before if there are many.
pub fn push_clickable<A>(registry: &mut ClickableRegistry<A>, entry: ClickableEntry<A>, now: u128)
    ensures
        final(registry).entries@ == (if old(registry).entries@.len() >= SOFT_CAP {
            fresh_entries(old(registry).entries@, now)
        } else {
            old(registry).entries@
        }).push(entry),
{
    if registry.entries.len() >= SOFT_CAP {
        registry.drop_stale(now);
    }
    registry.entries.push(entry);
}

/// Returns how many entries are registered.
pub fn clickable_registry_len<A>(registry: &ClickableRegistry<A>) -> (res: usize)
    ensures
        res == registry.entries@.len(),
{
    registry.entries.len()
}

/// Empties the registry.
pub fn clear_clickable_registry<A>(registry: &mut ClickableRegistry<A>)
    ensures
        final(registry).entries@.len() == 0,
{
    registry.entries.clear();
}

} // verus!
