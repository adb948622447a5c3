//! The jumplist: the places that panes remember having been at, the most recent first.

use vstd::prelude::*;
use vstd::string::*;

verus! {

/// A file of a project: the worktree and the path in it.
#[derive(Clone, PartialEq, Eq, Debug)]
pub struct ProjectPath {
    pub worktree_id: u64,
    pub path: String,
}

/// A step of a path.
#[derive(Clone, PartialEq, Eq, Debug)]
pub enum PathStep {
    Root,
    Current,
    Parent,
    /// A name, as its bytes.
    Name(Vec<u8>),
}

/// A place that a pane remembers.
#[derive(Clone, Debug)]
pub struct JumplistEntry {
    pub project_path: ProjectPath,
    /// The absolute path, step by step, where it is known.
    pub abs_path: Option<Vec<PathStep>>,
    /// The row, counted from one, where it is known.
    pub row: Option<u32>,
    /// The later a place was left, the larger.
    pub timestamp: usize,
}

/// What a [`PathStep`] holds.
#[verifier::ext_equal]
pub enum StepModel {
    Root,
    Current,
    Parent,
    Name(Seq<u8>),
}

impl View for PathStep {
    type V = StepModel;

    open spec fn view(&self) -> StepModel {
        match *self {
            PathStep::Root => StepModel::Root,
            PathStep::Current => StepModel::Current,
            PathStep::Parent => StepModel::Parent,
            PathStep::Name(name) => StepModel::Name(name@),
        }
    }
}

/// The steps of a path.
pub open spec fn steps(path: Seq<PathStep>) -> Seq<StepModel> {
    path.map_values(|step: PathStep| step@)
}

/// Which of two values comes first.
#[derive(Clone, Copy, PartialEq, Eq, Debug, Structural)]
pub enum Precedence {
    First,
    Same,
    Second,
}

/// Which of two names comes first: byte by byte, a name before its continuations.
pub open spec fn name_precedence(a: Seq<u8>, b: Seq<u8>) -> Precedence
    decreases a.len(),
{
    if a.len() == 0 {
        if b.len() == 0 {
            Precedence::Same
        } else {
            Precedence::First
        }
    } else if b.len() == 0 {
        Precedence::Second
    } else if a[0] < b[0] {
        Precedence::First
    } else if a[0] > b[0] {
        Precedence::Second
    } else {
        name_precedence(a.drop_first(), b.drop_first())
    }
}

/// The place of a kind of step in the order of kinds.
pub open spec fn rank(step: StepModel) -> int {
    match step {
        StepModel::Root => 0,
        StepModel::Current => 1,
        StepModel::Parent => 2,
        StepModel::Name(_) => 3,
    }
}

/// Which of two steps comes first.
pub open spec fn step_precedence(a: StepModel, b: StepModel) -> Precedence {
    if rank(a) < rank(b) {
        Precedence::First
    } else if rank(a) > rank(b) {
        Precedence::Second
    } else {
        match (a, b) {
            (StepModel::Name(a), StepModel::Name(b)) => name_precedence(a, b),
            _ => Precedence::Same,
        }
    }
}

/// Which of two paths comes first: step by step, a directory before what is in it.
pub open spec fn path_precedence(a: Seq<StepModel>, b: Seq<StepModel>) -> Precedence
    decreases a.len(),
{
    if a.len() == 0 {
        if b.len() == 0 {
            Precedence::Same
        } else {
            Precedence::First
        }
    } else if b.len() == 0 {
        Precedence::Second
    } else {
        match step_precedence(a[0], b[0]) {
            Precedence::Same => path_precedence(a.drop_first(), b.drop_first()),
            decided => decided,
        }
    }
}

/// Which of two paths comes first where one may be unknown: an unknown one does.
pub open spec fn known_path_precedence(
    a: Option<Vec<PathStep>>,
    b: Option<Vec<PathStep>>,
) -> Precedence {
    match (a, b) {
        (None, None) => Precedence::Same,
        (None, Some(_)) => Precedence::First,
        (Some(_), None) => Precedence::Second,
        (Some(a), Some(b)) => path_precedence(steps(a@), steps(b@)),
    }
}

/// Which of two entries comes first in the list: the more recent one, and of two of the
/// same time the one whose path comes first.
pub open spec fn precedence(a: JumplistEntry, b: JumplistEntry) -> Precedence {
    if a.timestamp > b.timestamp {
        Precedence::First
    } else if a.timestamp < b.timestamp {
        Precedence::Second
    } else {
        known_path_precedence(a.abs_path, b.abs_path)
    }
}

/// Whether an entry may stand before another one.
pub open spec fn may_precede(a: JumplistEntry, b: JumplistEntry) -> bool {
    precedence(a, b) != Precedence::Second
}

/// The precedence seen from the other value.
pub open spec fn turned(precedence: Precedence) -> Precedence {
    match precedence {
        Precedence::First => Precedence::Second,
        Precedence::Same => Precedence::Same,
        Precedence::Second => Precedence::First,
    }
}

proof fn lemma_name_order(a: Seq<u8>, b: Seq<u8>, c: Seq<u8>)
    ensures
        name_precedence(b, a) == turned(name_precedence(a, b)),
        name_precedence(a, b) != Precedence::Second && name_precedence(b, c) != Precedence::Second
            ==> name_precedence(a, c) != Precedence::Second,
        name_precedence(a, b) == Precedence::Same && name_precedence(b, c) == Precedence::Same
            ==> name_precedence(a, c) == Precedence::Same,
        name_precedence(a, b) == Precedence::Same <==> a == b,
    decreases a.len(),
{
    if a.len() == 0 {
        if b.len() == 0 {
            assert(a =~= b);
        }
    } else if b.len() > 0 {
        let (ra, rb) = (a.drop_first(), b.drop_first());
        let rc = if c.len() > 0 {
            c.drop_first()
        } else {
            c
        };
        lemma_name_order(ra, rb, rc);
        if a[0] == b[0] && ra == rb {
            assert(a =~= seq![a[0]] + ra);
            assert(b =~= seq![b[0]] + rb);
        }
    }
}

proof fn lemma_step_order(a: StepModel, b: StepModel, c: StepModel)
    ensures
        step_precedence(b, a) == turned(step_precedence(a, b)),
        step_precedence(a, b) != Precedence::Second && step_precedence(b, c) != Precedence::Second
            ==> step_precedence(a, c) != Precedence::Second,
        step_precedence(a, b) == Precedence::Same && step_precedence(b, c) == Precedence::Same
            ==> step_precedence(a, c) == Precedence::Same,
        step_precedence(a, b) == Precedence::Same <==> a == b,
{
    if let (StepModel::Name(x), StepModel::Name(y)) = (a, b) {
        let z = match c {
            StepModel::Name(z) => z,
            _ => x,
        };
        lemma_name_order(x, y, z);
    }
}

proof fn lemma_path_order(a: Seq<StepModel>, b: Seq<StepModel>, c: Seq<StepModel>)
    ensures
        path_precedence(b, a) == turned(path_precedence(a, b)),
        path_precedence(a, b) != Precedence::Second && path_precedence(b, c) != Precedence::Second
            ==> path_precedence(a, c) != Precedence::Second,
    decreases a.len(),
{
    if a.len() > 0 && b.len() > 0 {
        let (ra, rb) = (a.drop_first(), b.drop_first());
        let rc = if c.len() > 0 {
            c.drop_first()
        } else {
            c
        };
        lemma_path_order(ra, rb, rc);
        let z = if c.len() > 0 {
            c[0]
        } else {
            a[0]
        };
        lemma_step_order(a[0], b[0], z);
        lemma_step_order(b[0], z, a[0]);
        lemma_step_order(a[0], z, b[0]);
        lemma_step_order(z, a[0], b[0]);
    }
}

/// The order of the list is total and transitive.
pub proof fn law_order_is_total(a: JumplistEntry, b: JumplistEntry, c: JumplistEntry)
    ensures
        precedence(b, a) == turned(precedence(a, b)),
        may_precede(a, b) || may_precede(b, a),
        may_precede(a, b) && may_precede(b, c) ==> may_precede(a, c),
{
    if let (Some(x), Some(y)) = (a.abs_path, b.abs_path) {
        let z = match c.abs_path {
            Some(z) => z,
            None => x,
        };
        lemma_path_order(steps(x@), steps(y@), steps(z@));
    }
}

/// Whether a name comes before another one: it is how the other starts, or has the smaller
/// byte where they first differ.
pub open spec fn name_before(a: Seq<u8>, b: Seq<u8>) -> bool {
    exists|k: int| #[trigger]
        agree_up_to(a, b, k) && k < b.len() && (k == a.len() || (k < a.len() && a[k] < b[k]))
}

/// Whether two rows agree in what stands before `k`.
pub open spec fn agree_up_to<T>(a: Seq<T>, b: Seq<T>, k: int) -> bool {
    &&& 0 <= k <= a.len()
    &&& k <= b.len()
    &&& forall|j: int| 0 <= j < k ==> #[trigger] a[j] == b[j]
}

/// Whether a step comes before another one: the root before the directory itself, this before
/// the one above, and this before any name; of two names the one that comes before the other.
pub open spec fn step_before(a: StepModel, b: StepModel) -> bool {
    match (a, b) {
        (StepModel::Root, StepModel::Root) => false,
        (StepModel::Root, _) => true,
        (_, StepModel::Root) => false,
        (StepModel::Current, StepModel::Current) => false,
        (StepModel::Current, _) => true,
        (_, StepModel::Current) => false,
        (StepModel::Parent, StepModel::Parent) => false,
        (StepModel::Parent, _) => true,
        (_, StepModel::Parent) => false,
        (StepModel::Name(a), StepModel::Name(b)) => name_before(a, b),
    }
}

/// Whether a path comes before another one: it leads to a directory in which the other goes
/// on, or has the step that comes first where they first differ.
pub open spec fn path_before(a: Seq<StepModel>, b: Seq<StepModel>) -> bool {
    exists|k: int| #[trigger]
        agree_up_to(a, b, k) && k < b.len() && (k == a.len() || (k < a.len() && step_before(
            a[k],
            b[k],
        )))
}

proof fn lemma_agree_below<T>(a: Seq<T>, b: Seq<T>, k: int)
    requires
        a.len() > 0,
        b.len() > 0,
        a[0] == b[0],
        0 <= k,
    ensures
        agree_up_to(a, b, k + 1) == agree_up_to(a.drop_first(), b.drop_first(), k),
{
    let (ra, rb) = (a.drop_first(), b.drop_first());
    if agree_up_to(ra, rb, k) {
        assert forall|j: int| 0 <= j < k + 1 implies #[trigger] a[j] == b[j] by {
            if j > 0 {
                assert(ra[j - 1] == rb[j - 1]);
            }
        }
    }
    if agree_up_to(a, b, k + 1) {
        assert forall|j: int| 0 <= j < k implies #[trigger] ra[j] == rb[j] by {
            assert(a[j + 1] == b[j + 1]);
        }
    }
}

proof fn lemma_name_before(a: Seq<u8>, b: Seq<u8>)
    ensures
        name_precedence(a, b) == Precedence::First <==> name_before(a, b),
    decreases a.len(),
{
    if a.len() == 0 || b.len() == 0 || a[0] != b[0] {
        assert(agree_up_to(a, b, 0));
        if name_before(a, b) {
            let k = choose|k: int| #[trigger]
                agree_up_to(a, b, k) && k < b.len() && (k == a.len() || (k < a.len() && a[k]
                    < b[k]));
            if k > 0 {
                assert(a[0] == b[0]);
            }
        }
    } else {
        let (ra, rb) = (a.drop_first(), b.drop_first());
        lemma_name_before(ra, rb);
        if name_before(ra, rb) {
            let k = choose|k: int| #[trigger]
                agree_up_to(ra, rb, k) && k < rb.len() && (k == ra.len() || (k < ra.len() && ra[k]
                    < rb[k]));
            lemma_agree_below(a, b, k);
            assert(agree_up_to(a, b, k + 1));
        }
        if name_before(a, b) {
            let k = choose|k: int| #[trigger]
                agree_up_to(a, b, k) && k < b.len() && (k == a.len() || (k < a.len() && a[k]
                    < b[k]));
            assert(k > 0);
            lemma_agree_below(a, b, k - 1);
            assert(agree_up_to(ra, rb, k - 1));
        }
    }
}

proof fn lemma_step_before(a: StepModel, b: StepModel)
    ensures
        step_precedence(a, b) == Precedence::First <==> step_before(a, b),
{
    if let (StepModel::Name(x), StepModel::Name(y)) = (a, b) {
        lemma_name_before(x, y);
    }
}

/// A path is put first exactly if it comes before the other; two paths are on a par only if
/// they are one.
pub proof fn law_order_of_paths(a: Seq<StepModel>, b: Seq<StepModel>)
    ensures
        path_precedence(a, b) == Precedence::First <==> path_before(a, b),
        path_precedence(a, b) == Precedence::Same <==> a == b,
    decreases a.len(),
{
    if a.len() > 0 && b.len() > 0 {
        lemma_step_before(a[0], b[0]);
        lemma_step_order(a[0], b[0], b[0]);
    }
    if a.len() == 0 || b.len() == 0 || a[0] != b[0] {
        assert(agree_up_to(a, b, 0));
        if a.len() == 0 && b.len() == 0 {
            assert(a =~= b);
        }
        if path_before(a, b) {
            let k = choose|k: int| #[trigger]
                agree_up_to(a, b, k) && k < b.len() && (k == a.len() || (k < a.len()
                    && step_before(a[k], b[k])));
            if k > 0 {
                assert(a[0] == b[0]);
            }
        }
    } else {
        let (ra, rb) = (a.drop_first(), b.drop_first());
        law_order_of_paths(ra, rb);
        if ra == rb {
            assert(a =~= seq![a[0]] + ra);
            assert(b =~= seq![b[0]] + rb);
        }
        if path_before(ra, rb) {
            let k = choose|k: int| #[trigger]
                agree_up_to(ra, rb, k) && k < rb.len() && (k == ra.len() || (k < ra.len()
                    && step_before(ra[k], rb[k])));
            lemma_agree_below(a, b, k);
            assert(agree_up_to(a, b, k + 1));
        }
        if path_before(a, b) {
            let k = choose|k: int| #[trigger]
                agree_up_to(a, b, k) && k < b.len() && (k == a.len() || (k < a.len()
                    && step_before(a[k], b[k])));
            if k == 0 {
                lemma_step_before(a[0], b[0]);
            }
            assert(k > 0);
            lemma_agree_below(a, b, k - 1);
            assert(agree_up_to(ra, rb, k - 1));
        }
    }
}

/// An entry may stand before another one exactly if it is more recent, or as recent and its
/// path is not known, or known and not behind that of the other.
pub proof fn law_order_of_entries(a: JumplistEntry, b: JumplistEntry)
    ensures
        may_precede(a, b) <==> {
            ||| a.timestamp > b.timestamp
            ||| a.timestamp == b.timestamp && a.abs_path is None
            ||| a.timestamp == b.timestamp && (a.abs_path matches Some(x)
                && b.abs_path matches Some(y) && (steps(x@) == steps(y@) || path_before(
                steps(x@),
                steps(y@),
            )))
        },
{
    if let (Some(x), Some(y)) = (a.abs_path, b.abs_path) {
        law_order_of_paths(steps(x@), steps(y@));
    }
}

/// Returns which of two names comes first.
fn compare_names(a: &Vec<u8>, b: &Vec<u8>) -> (res: Precedence)
    ensures
        res == name_precedence(a@, b@),
{
    let mut i: usize = 0;
    assert(a@.skip(0) =~= a@);
    assert(b@.skip(0) =~= b@);
    while i < a.len() && i < b.len()
        invariant
            i <= a@.len(),
            i <= b@.len(),
            name_precedence(a@, b@) == name_precedence(a@.skip(i as int), b@.skip(i as int)),
        decreases a@.len() - i,
    {
        assert(a@.skip(i as int).drop_first() =~= a@.skip(i + 1));
        assert(b@.skip(i as int).drop_first() =~= b@.skip(i + 1));
        if a[i] < b[i] {
            return Precedence::First;
        }
        if a[i] > b[i] {
            return Precedence::Second;
        }
        i += 1;
    }
    if i < b.len() {
        Precedence::First
    } else if i < a.len() {
        Precedence::Second
    } else {
        Precedence::Same
    }
}

/// The place of a kind of step in the order of kinds.
fn step_rank(step: &PathStep) -> (res: u8)
    ensures
        res == rank(step@),
{
    match step {
        PathStep::Root => 0,
        PathStep::Current => 1,
        PathStep::Parent => 2,
        PathStep::Name(_) => 3,
    }
}

/// Returns which of two steps comes first.
fn compare_steps(a: &PathStep, b: &PathStep) -> (res: Precedence)
    ensures
        res == step_precedence(a@, b@),
{
    let rank_a = step_rank(a);
    let rank_b = step_rank(b);
    if rank_a < rank_b {
        return Precedence::First;
    }
    if rank_a > rank_b {
        return Precedence::Second;
    }
    match (a, b) {
        (PathStep::Name(a), PathStep::Name(b)) => compare_names(a, b),
        _ => Precedence::Same,
    }
}

/// Returns which of two paths comes first.
fn compare_paths(a: &Vec<PathStep>, b: &Vec<PathStep>) -> (res: Precedence)
    ensures
        res == path_precedence(steps(a@), steps(b@)),
{
    let ghost (sa, sb) = (steps(a@), steps(b@));
    let mut i: usize = 0;
    assert(sa.skip(0) =~= sa);
    assert(sb.skip(0) =~= sb);
    while i < a.len() && i < b.len()
        invariant
            i <= a@.len(),
            i <= b@.len(),
            sa == steps(a@),
            sb == steps(b@),
            path_precedence(sa, sb) == path_precedence(sa.skip(i as int), sb.skip(i as int)),
        decreases a@.len() - i,
    {
        assert(sa.skip(i as int).drop_first() =~= sa.skip(i + 1));
        assert(sb.skip(i as int).drop_first() =~= sb.skip(i + 1));
        match compare_steps(&a[i], &b[i]) {
            Precedence::Same => {},
            decided => {
                return decided;
            },
        }
        i += 1;
    }
    if i < b.len() {
        Precedence::First
    } else if i < a.len() {
        Precedence::Second
    } else {
        Precedence::Same
    }
}

impl JumplistEntry {
    /// Returns which of two entries comes first in the list.
    fn compare(&self, other: &JumplistEntry) -> (res: Precedence)
        ensures
            res == precedence(*self, *other),
    {
        if self.timestamp > other.timestamp {
            return Precedence::First;
        }
        if self.timestamp < other.timestamp {
            return Precedence::Second;
        }
        match (&self.abs_path, &other.abs_path) {
            (None, None) => Precedence::Same,
            (None, Some(_)) => Precedence::First,
            (Some(_), None) => Precedence::Second,
            (Some(a), Some(b)) => compare_paths(a, b),
        }
    }
}

/// How many of the entries of a list, from the first on, an entry comes after.
pub open spec fn slot(sorted: Seq<JumplistEntry>, entry: JumplistEntry) -> nat
    decreases sorted.len(),
{
    if sorted.len() == 0 {
        0
    } else if may_precede(sorted.last(), entry) {
        sorted.len()
    } else {
        slot(sorted.drop_last(), entry)
    }
}

/// The entries in the order of the list; of two that may stand either way, the one that
/// was given first stays first.
pub open spec fn in_order(entries: Seq<JumplistEntry>) -> Seq<JumplistEntry>
    decreases entries.len(),
{
    if entries.len() == 0 {
        Seq::empty()
    } else {
        let before = in_order(entries.drop_last());
        before.insert(slot(before, entries.last()) as int, entries.last())
    }
}

/// Whether every entry may stand before those behind it.
pub open spec fn is_sorted(entries: Seq<JumplistEntry>) -> bool {
    forall|i: int, j: int|
        0 <= i < j < entries.len() ==> may_precede(#[trigger] entries[i], #[trigger] entries[j])
}

proof fn lemma_slot(sorted: Seq<JumplistEntry>, entry: JumplistEntry)
    ensures
        slot(sorted, entry) <= sorted.len(),
        slot(sorted, entry) > 0 ==> may_precede(sorted[slot(sorted, entry) - 1], entry),
        forall|k: int|
            slot(sorted, entry) <= k < sorted.len() ==> !may_precede(#[trigger] sorted[k], entry),
    decreases sorted.len(),
{
    if sorted.len() > 0 && !may_precede(sorted.last(), entry) {
        let rest = sorted.drop_last();
        lemma_slot(rest, entry);
        assert forall|k: int| slot(sorted, entry) <= k < sorted.len() implies !may_precede(
            #[trigger] sorted[k],
            entry,
        ) by {
            if k < rest.len() {
                assert(rest[k] == sorted[k]);
            }
        }
    }
}

/// The list is sorted, and holds every entry as often as it was given.
pub proof fn law_list_is_sorted(entries: Seq<JumplistEntry>)
    ensures
        is_sorted(in_order(entries)),
        in_order(entries).to_multiset() == entries.to_multiset(),
        in_order(entries).len() == entries.len(),
    decreases entries.len(),
{
    broadcast use vstd::seq_lib::group_to_multiset_ensures;

    if entries.len() > 0 {
        let rest = entries.drop_last();
        let entry = entries.last();
        law_list_is_sorted(rest);
        let before = in_order(rest);
        let at = slot(before, entry) as int;
        lemma_slot(before, entry);
        let all = in_order(entries);
        assert forall|i: int, j: int| 0 <= i < j < all.len() implies may_precede(
            #[trigger] all[i],
            #[trigger] all[j],
        ) by {
            let bi = if i < at {
                i
            } else {
                i - 1
            };
            let bj = if j < at {
                j
            } else {
                j - 1
            };
            if j == at {
                if i < at - 1 {
                    assert(may_precede(before[i], before[at - 1]));
                    law_order_is_total(before[i], before[at - 1], entry);
                }
            } else if i == at {
                law_order_is_total(before[bj], entry, entry);
            } else {
                assert(all[i] == before[bi] && all[j] == before[bj]);
            }
        }
        vstd::seq_lib::to_multiset_insert(before, at, entry);
        assert(entries =~= rest.push(entry));
    }
}

/// Where each entry of the list was given.
pub open spec fn given_at(entries: Seq<JumplistEntry>) -> Seq<int>
    decreases entries.len(),
{
    if entries.len() == 0 {
        Seq::empty()
    } else {
        let rest = entries.drop_last();
        given_at(rest).insert(
            slot(in_order(rest), entries.last()) as int,
            entries.len() - 1,
        )
    }
}

/// The list holds each of the given entries once, and of two that may stand either way,
/// the one that was given first stays first.
pub proof fn law_sorting_is_stable(entries: Seq<JumplistEntry>)
    ensures
        given_at(entries).len() == entries.len(),
        in_order(entries).len() == entries.len(),
        given_at(entries).no_duplicates(),
        forall|k: int|
            0 <= k < entries.len() ==> 0 <= #[trigger] given_at(entries)[k] < entries.len()
                && in_order(entries)[k] == entries[given_at(entries)[k]],
        forall|k: int, l: int|
            0 <= k < l < entries.len() && precedence(
                #[trigger] in_order(entries)[k],
                #[trigger] in_order(entries)[l],
            ) == Precedence::Same ==> given_at(entries)[k] < given_at(entries)[l],
    decreases entries.len(),
{
    if entries.len() > 0 {
        let rest = entries.drop_last();
        let entry = entries.last();
        law_sorting_is_stable(rest);
        let before = in_order(rest);
        let at = slot(before, entry) as int;
        lemma_slot(before, entry);
        let all = in_order(entries);
        let ix = given_at(entries);
        let rest_ix = given_at(rest);
        assert forall|k: int| 0 <= k < entries.len() implies 0 <= #[trigger] ix[k] < entries.len()
            && all[k] == entries[ix[k]] by {
            if k < at {
                assert(ix[k] == rest_ix[k]);
            } else if k > at {
                assert(ix[k] == rest_ix[k - 1]);
            }
        }
        assert forall|k: int, l: int| 0 <= k < l < entries.len() implies ix[k] != ix[l] by {
            let rk = if k < at {
                rest_ix[k]
            } else {
                rest_ix[k - 1]
            };
            let rl = if l < at {
                rest_ix[l]
            } else {
                rest_ix[l - 1]
            };
        }
        assert forall|k: int, l: int|
            0 <= k < l < entries.len() && precedence(#[trigger] all[k], #[trigger] all[l])
                == Precedence::Same implies ix[k] < ix[l] by {
            if l == at {
                assert(ix[k] == rest_ix[k]);
            } else if k == at {
                law_order_is_total(all[l], entry, entry);
                assert(all[l] == before[l - 1]);
            } else {
                let bk = if k < at {
                    k
                } else {
                    k - 1
                };
                let bl = if l < at {
                    l
                } else {
                    l - 1
                };
                assert(all[k] == before[bk] && all[l] == before[bl]);
                assert(ix[k] == rest_ix[bk] && ix[l] == rest_ix[bl]);
            }
        }
    }
}

/// Whether two entries are for the same row of the same file.
pub open spec fn same_place(a: JumplistEntry, b: JumplistEntry) -> bool {
    &&& a.project_path.worktree_id == b.project_path.worktree_id
    &&& a.project_path.path@ == b.project_path.path@
    &&& a.row == b.row
}

/// The entries without those that are for the same place as the one kept before them.
pub open spec fn without_repeats(entries: Seq<JumplistEntry>) -> Seq<JumplistEntry>
    decreases entries.len(),
{
    if entries.len() == 0 {
        Seq::empty()
    } else {
        let before = without_repeats(entries.drop_last());
        if before.len() > 0 && same_place(entries.last(), before.last()) {
            before
        } else {
            before.push(entries.last())
        }
    }
}

/// The jumplist made of the given entries.
pub open spec fn jumplist(entries: Seq<JumplistEntry>) -> Seq<JumplistEntry> {
    without_repeats(in_order(entries))
}

/// No place is listed twice in a row, every entry of the list is one of the given ones, and
/// they stay in order. Each given entry is either listed or left out for one that is for the
/// same place and comes before it.
pub proof fn law_no_place_twice_in_a_row(entries: Seq<JumplistEntry>)
    ensures
        forall|i: int|
            0 < i < jumplist(entries).len() ==> !same_place(
                #[trigger] jumplist(entries)[i],
                jumplist(entries)[i - 1],
            ),
        is_sorted(jumplist(entries)),
        forall|i: int|
            0 <= i < jumplist(entries).len() ==> entries.contains(#[trigger] jumplist(entries)[i]),
        forall|k: int|
            0 <= k < entries.len() ==> stands_for(jumplist(entries), #[trigger] in_order(entries)[k]),
        entries.len() > 0 ==> jumplist(entries).len() > 0 && jumplist(entries)[0] == in_order(
            entries,
        )[0],
{
    law_list_is_sorted(entries);
    law_sorting_is_stable(entries);
    let sorted = in_order(entries);
    lemma_without_repeats(sorted);
    assert forall|k: int| 0 <= k < entries.len() implies stands_for(
        jumplist(entries),
        #[trigger] sorted[k],
    ) by {
        lemma_stands_for(sorted, k);
    }
    assert forall|i: int| 0 <= i < jumplist(entries).len() implies entries.contains(
        #[trigger] jumplist(entries)[i],
    ) by {
        let k = lemma_kept_entry(sorted, i);
        assert(entries[given_at(entries)[k]] == sorted[k]);
    }
}

/// The places of a list are sorted by time: the most recent one comes first.
pub proof fn law_most_recent_first(entries: Seq<JumplistEntry>, i: int, j: int)
    requires
        0 <= i < j < jumplist(entries).len(),
    ensures
        jumplist(entries)[i].timestamp >= jumplist(entries)[j].timestamp,
{
    law_no_place_twice_in_a_row(entries);
    assert(may_precede(jumplist(entries)[i], jumplist(entries)[j]));
    law_order_of_entries(jumplist(entries)[i], jumplist(entries)[j]);
}

/// Whether two entries are for the same file and the same row.
pub open spec fn is_for_one_place(a: JumplistEntry, b: JumplistEntry) -> bool {
    a.project_path.worktree_id == b.project_path.worktree_id && a.project_path.path@
        == b.project_path.path@ && a.row == b.row
}

/// Whether a list is made of the entries with the given numbers, in order, of which the first
/// is the first; between two of them stand only entries for the place of the former, and two
/// neighbours in the list are for different places.
pub open spec fn leaves_repeats_out(
    list: Seq<JumplistEntry>,
    from: Seq<int>,
    sorted: Seq<JumplistEntry>,
) -> bool {
    &&& list.len() == from.len()
    &&& from.len() > 0 <==> sorted.len() > 0
    &&& from.len() > 0 ==> from[0] == 0
    &&& forall|e: int|
        0 <= e < list.len() ==> 0 <= #[trigger] from[e] < sorted.len() && list[e]
            == sorted[from[e]]
    &&& forall|e: int, k: int|
        0 <= e < from.len() && from[e] < k < sorted.len() && (e + 1 < from.len() ==> k < from[e
            + 1]) ==> is_for_one_place(#[trigger] sorted[k], #[trigger] list[e])
    &&& forall|e: int|
        0 < e < list.len() ==> from[e - 1] < #[trigger] from[e] && !is_for_one_place(
            list[e],
            list[e - 1],
        )
}

/// Where the entries that stay stood.
spec fn kept_at(entries: Seq<JumplistEntry>) -> Seq<int>
    decreases entries.len(),
{
    if entries.len() == 0 {
        Seq::empty()
    } else {
        let rest = entries.drop_last();
        let before = without_repeats(rest);
        if before.len() > 0 && is_for_one_place(entries.last(), before.last()) {
            kept_at(rest)
        } else {
            kept_at(rest).push(entries.len() - 1)
        }
    }
}

/// Whether the entries of a list stand where the numbers say, in order.
spec fn stood_at(list: Seq<JumplistEntry>, from: Seq<int>, sorted: Seq<JumplistEntry>) -> bool {
    &&& list.len() == from.len()
    &&& from.len() > 0 <==> sorted.len() > 0
    &&& from.len() > 0 ==> from[0] == 0
    &&& forall|e: int|
        0 <= e < list.len() ==> 0 <= #[trigger] from[e] < sorted.len() && list[e]
            == sorted[from[e]]
}

proof fn lemma_stood_at(entries: Seq<JumplistEntry>)
    ensures
        stood_at(without_repeats(entries), kept_at(entries), entries),
    decreases entries.len(),
{
    if entries.len() > 0 {
        let rest = entries.drop_last();
        lemma_stood_at(rest);
        let before = without_repeats(rest);
        let earlier = kept_at(rest);
        let list = without_repeats(entries);
        let from = kept_at(entries);
        assert forall|e: int| 0 <= e < list.len() implies 0 <= #[trigger] from[e] < entries.len()
            && list[e] == entries[from[e]] by {
            if e < before.len() {
                assert(from[e] == earlier[e]);
                assert(list[e] == before[e]);
                assert(rest[earlier[e]] == entries[earlier[e]]);
            }
        }
    }
}

/// Whether two neighbours in a list are for different places, and stood in this order.
spec fn neighbours_differ(list: Seq<JumplistEntry>, from: Seq<int>) -> bool {
    forall|e: int|
        0 < e < list.len() ==> from[e - 1] < #[trigger] from[e] && !is_for_one_place(
            list[e],
            list[e - 1],
        )
}

proof fn lemma_neighbours_differ(entries: Seq<JumplistEntry>)
    ensures
        neighbours_differ(without_repeats(entries), kept_at(entries)),
    decreases entries.len(),
{
    if entries.len() > 0 {
        let rest = entries.drop_last();
        lemma_neighbours_differ(rest);
        lemma_stood_at(rest);
        let before = without_repeats(rest);
        let earlier = kept_at(rest);
        let list = without_repeats(entries);
        let from = kept_at(entries);
        assert forall|e: int| 0 < e < list.len() implies from[e - 1] < #[trigger] from[e]
            && !is_for_one_place(list[e], list[e - 1]) by {
            assert(from[e - 1] == earlier[e - 1]);
            assert(list[e - 1] == before[e - 1]);
            if e < before.len() {
                assert(from[e] == earlier[e]);
                assert(list[e] == before[e]);
            }
        }
    }
}

/// An entry between one that stays and the next is for the place of the former.
proof fn lemma_repeats_between(entries: Seq<JumplistEntry>, e: int, k: int)
    requires
        0 <= e < kept_at(entries).len(),
        kept_at(entries)[e] < k < entries.len(),
        e + 1 < kept_at(entries).len() ==> k < kept_at(entries)[e + 1],
    ensures
        is_for_one_place(entries[k], without_repeats(entries)[e]),
    decreases entries.len(),
{
    let rest = entries.drop_last();
    let before = without_repeats(rest);
    let earlier = kept_at(rest);
    let list = without_repeats(entries);
    let from = kept_at(entries);
    lemma_stood_at(rest);
    lemma_stood_at(entries);
    if e == before.len() {
        assert(from[e] == entries.len() - 1);
    } else {
        assert(from[e] == earlier[e]);
        assert(list[e] == before[e]);
        if k < rest.len() {
            if e + 1 < earlier.len() {
                assert(from[e + 1] == earlier[e + 1]);
            }
            lemma_repeats_between(rest, e, k);
            assert(rest[k] == entries[k]);
        } else {
            if e + 1 < earlier.len() {
                assert(from[e + 1] == earlier[e + 1]);
                assert(earlier[e + 1] < rest.len());
            } else if from.len() > earlier.len() {
                assert(from[e + 1] == entries.len() - 1);
            }
            assert(e == before.len() - 1);
        }
    }
}

proof fn lemma_kept_at(entries: Seq<JumplistEntry>)
    ensures
        leaves_repeats_out(without_repeats(entries), kept_at(entries), entries),
{
    let list = without_repeats(entries);
    let from = kept_at(entries);
    lemma_stood_at(entries);
    lemma_neighbours_differ(entries);
    assert forall|e: int, k: int|
        0 <= e < from.len() && from[e] < k < entries.len() && (e + 1 < from.len() ==> k < from[e
            + 1]) implies is_for_one_place(#[trigger] entries[k], #[trigger] list[e]) by {
        lemma_repeats_between(entries, e, k);
    }
}

/// The list is the sorted entries, but for those that follow one for the same file and row.
pub proof fn law_only_repeats_are_left_out(entries: Seq<JumplistEntry>)
    ensures
        exists|from: Seq<int>| #[trigger]
            leaves_repeats_out(jumplist(entries), from, in_order(entries)),
{
    let sorted = in_order(entries);
    lemma_kept_at(sorted);
    assert(leaves_repeats_out(jumplist(entries), kept_at(sorted), sorted));
}

/// What all panes remember is what each remembers, pane after pane.
pub proof fn law_all_panes_are_asked(panes: Seq<Vec<JumplistEntry>>, more: Vec<JumplistEntry>)
    ensures
        all_entries(Seq::<Vec<JumplistEntry>>::empty()).len() == 0,
        all_entries(panes.push(more)) == all_entries(panes) + more@,
{
    assert(panes.push(more).drop_last() =~= panes);
}

/// Whether an entry is listed, or one for the same place that comes before it.
pub open spec fn stands_for(list: Seq<JumplistEntry>, entry: JumplistEntry) -> bool {
    exists|i: int|
        0 <= i < list.len() && (#[trigger] list[i] == entry || (same_place(entry, list[i])
            && may_precede(list[i], entry)))
}

proof fn lemma_stands_for(entries: Seq<JumplistEntry>, k: int)
    requires
        is_sorted(entries),
        0 <= k < entries.len(),
    ensures
        stands_for(without_repeats(entries), entries[k]),
    decreases entries.len(),
{
    let rest = entries.drop_last();
    let before = without_repeats(rest);
    let all = without_repeats(entries);
    if k < rest.len() {
        assert(is_sorted(rest)) by {
            assert forall|i: int, j: int| 0 <= i < j < rest.len() implies may_precede(
                #[trigger] rest[i],
                #[trigger] rest[j],
            ) by {
                assert(rest[i] == entries[i] && rest[j] == entries[j]);
            }
        }
        lemma_stands_for(rest, k);
        let i = choose|i: int|
            0 <= i < before.len() && (#[trigger] before[i] == rest[k] || (same_place(
                rest[k],
                before[i],
            ) && may_precede(before[i], rest[k])));
        assert(all[i] == before[i]);
        assert(entries[k] == rest[k]);
    } else if before.len() > 0 && same_place(entries.last(), before.last()) {
        let at = lemma_kept_entry(rest, before.len() - 1);
        assert(rest[at] == entries[at]);
        assert(may_precede(entries[at], entries[k]));
        assert(all[before.len() - 1] == before.last());
    } else {
        assert(all[before.len() as int] == entries[k]);
    }
}

/// Where a kept entry stood.
proof fn lemma_kept_entry(entries: Seq<JumplistEntry>, i: int) -> (k: int)
    requires
        0 <= i < without_repeats(entries).len(),
    ensures
        0 <= k < entries.len(),
        without_repeats(entries)[i] == entries[k],
    decreases entries.len(),
{
    let rest = entries.drop_last();
    if i < without_repeats(rest).len() {
        lemma_kept_entry(rest, i)
    } else {
        entries.len() - 1
    }
}

proof fn lemma_without_repeats(entries: Seq<JumplistEntry>)
    requires
        is_sorted(entries),
    ensures
        is_sorted(without_repeats(entries)),
        forall|i: int|
            0 < i < without_repeats(entries).len() ==> !same_place(
                #[trigger] without_repeats(entries)[i],
                without_repeats(entries)[i - 1],
            ),
        entries.len() > 0 ==> without_repeats(entries).len() > 0 && without_repeats(entries)[0]
            == entries[0],
    decreases entries.len(),
{
    if entries.len() > 0 {
        let rest = entries.drop_last();
        assert(is_sorted(rest)) by {
            assert forall|i: int, j: int| 0 <= i < j < rest.len() implies may_precede(
                #[trigger] rest[i],
                #[trigger] rest[j],
            ) by {
                assert(rest[i] == entries[i] && rest[j] == entries[j]);
            }
        }
        lemma_without_repeats(rest);
        let before = without_repeats(rest);
        let all = without_repeats(entries);
        assert forall|i: int, j: int| 0 <= i < j < all.len() implies may_precede(
            #[trigger] all[i],
            #[trigger] all[j],
        ) by {
            if j < before.len() {
                assert(all[i] == before[i] && all[j] == before[j]);
            } else {
                let k = lemma_kept_entry(rest, i);
                assert(all[i] == entries[k]);
                assert(all[j] == entries[entries.len() - 1]);
            }
        }
        if rest.len() > 0 {
            assert(rest[0] == entries[0]);
        }
    }
}

/// Returns the entries in the order of the list.
fn sort_entries(entries: Vec<JumplistEntry>) -> (res: Vec<JumplistEntry>)
    ensures
        res@ == in_order(entries@),
{
    let mut waiting = entries;
    let ghost all = entries@;
    let mut sorted: Vec<JumplistEntry> = Vec::new();
    let ghost mut done: int = 0;
    assert(all.take(0) =~= Seq::empty());
    while waiting.len() > 0
        invariant
            0 <= done <= all.len(),
            waiting@ == all.skip(done),
            sorted@ == in_order(all.take(done)),
        decreases waiting@.len(),
    {
        let entry = waiting.remove(0);
        let mut at: usize = sorted.len();
        assert(sorted@.take(at as int) =~= sorted@);
        while at > 0 && sorted[at - 1].compare(&entry) == Precedence::Second
            invariant
                at <= sorted@.len(),
                slot(sorted@, entry) == slot(sorted@.take(at as int), entry),
            decreases at,
        {
            assert(sorted@.take(at as int).drop_last() =~= sorted@.take(at - 1));
            at -= 1;
        }
        proof {
            assert(all.take(done + 1).drop_last() =~= all.take(done));
            assert(all.take(done + 1).last() == entry);
            assert(at == slot(sorted@, entry));
            assert(waiting@ =~= all.skip(done + 1));
            done = done + 1;
        }
        sorted.insert(at, entry);
    }
    assert(all.take(done) =~= all);
    sorted
}

impl JumplistEntry {
    /// Whether two entries are for the same row of the same file.
    fn is_same_place(&self, other: &JumplistEntry) -> (res: bool)
        ensures
            res == same_place(*self, *other),
    {
        let same_row = match (self.row, other.row) {
            (Some(a), Some(b)) => a == b,
            (None, None) => true,
            _ => false,
        };
        same_row && self.project_path.worktree_id == other.project_path.worktree_id
            && self.project_path.path == other.project_path.path
    }
}

/// Returns the entries without those that are for the same place as the one kept before
/// them.
fn drop_repeats(entries: Vec<JumplistEntry>) -> (res: Vec<JumplistEntry>)
    ensures
        res@ == without_repeats(entries@),
{
    let mut waiting = entries;
    let ghost all = entries@;
    let mut kept: Vec<JumplistEntry> = Vec::new();
    let ghost mut done: int = 0;
    assert(all.take(0) =~= Seq::empty());
    while waiting.len() > 0
        invariant
            0 <= done <= all.len(),
            waiting@ == all.skip(done),
            kept@ == without_repeats(all.take(done)),
        decreases waiting@.len(),
    {
        let entry = waiting.remove(0);
        proof {
            assert(all.take(done + 1).drop_last() =~= all.take(done));
            assert(all.take(done + 1).last() == entry);
            assert(waiting@ =~= all.skip(done + 1));
            done = done + 1;
        }
        let len = kept.len();
        if !(len > 0 && entry.is_same_place(&kept[len - 1])) {
            kept.push(entry);
        }
    }
    assert(all.take(done) =~= all);
    kept
}

/// Returns the jumplist of a pane, given what it remembers: the most recent place first.
/// It is empty where there is no pane.
pub fn codon_jumplist_entries(pane: Option<Vec<JumplistEntry>>) -> (res: Vec<JumplistEntry>)
    ensures
        res@ == (match pane {
            Some(entries) => jumplist(entries@),
            None => Seq::empty(),
        }),
{
    match pane {
        Some(entries) => drop_repeats(sort_entries(entries)),
        None => Vec::new(),
    }
}

/// What all panes remember, pane by pane.
pub open spec fn all_entries(panes: Seq<Vec<JumplistEntry>>) -> Seq<JumplistEntry>
    decreases panes.len(),
{
    if panes.len() == 0 {
        Seq::empty()
    } else {
        all_entries(panes.drop_last()) + panes.last()@
    }
}

/// Returns the jumplist of all panes, given what each remembers: the most recent place
/// first.
pub fn workspace_jumplist_entries(panes: Vec<Vec<JumplistEntry>>) -> (res: Vec<JumplistEntry>)
    ensures
        res@ == jumplist(all_entries(panes@)),
{
    let mut waiting = panes;
    let ghost all = panes@;
    let ghost mut done: int = 0;
    let mut entries: Vec<JumplistEntry> = Vec::new();
    assert(all.take(0) =~= Seq::empty());
    while waiting.len() > 0
        invariant
            0 <= done <= all.len(),
            waiting@ == all.skip(done),
            entries@ == all_entries(all.take(done)),
        decreases waiting@.len(),
    {
        let mut pane = waiting.remove(0);
        proof {
            assert(all.take(done + 1).drop_last() =~= all.take(done));
            assert(all.take(done + 1).last() == pane);
            assert(waiting@ =~= all.skip(done + 1));
            done = done + 1;
        }
        entries.append(&mut pane);
    }
    assert(all.take(done) =~= all);
    drop_repeats(sort_entries(entries))
}

/// What a workspace remembers: what each pane does, and which pane an editor has the focus
/// in, if one has.
#[derive(Debug)]
pub struct WorkspaceHistory {
    pub panes: Vec<Vec<JumplistEntry>>,
    pub focused_editor: Option<usize>,
}

/// The jumplist of a workspace.
pub open spec fn workspace_jumplist(workspace: WorkspaceHistory) -> Seq<JumplistEntry> {
    match workspace.focused_editor {
        Some(pane) if pane < workspace.panes@.len() => jumplist(workspace.panes@[pane as int]@),
        _ => jumplist(all_entries(workspace.panes@)),
    }
}

/// Returns the jumplist of a workspace: that of the pane in which an editor has the focus,
/// or that of all panes where none has.
pub fn for_workspace(workspace: WorkspaceHistory) -> (res: Vec<JumplistEntry>)
    ensures
        res@ == workspace_jumplist(workspace),
{
    if let Some(pane) = workspace.focused_editor {
        if pane < workspace.panes.len() {
            let mut panes = workspace.panes;
            return codon_jumplist_entries(Some(panes.swap_remove(pane)));
        }
    }
    workspace_jumplist_entries(workspace.panes)
}

/// Returns the jumplist of a workspace that may be gone; it is empty then.
pub fn for_weak_workspace(workspace: Option<WorkspaceHistory>) -> (res: Vec<JumplistEntry>)
    ensures
        res@ == (match workspace {
            Some(workspace) => workspace_jumplist(workspace),
            None => Seq::empty(),
        }),
{
    match workspace {
        Some(workspace) => for_workspace(workspace),
        None => Vec::new(),
    }
}

/// A place in a buffer, by row and column, both counted from zero.
#[derive(Clone, Copy, PartialEq, Eq, Debug, Structural)]
pub struct BufferPoint {
    pub row: u32,
    pub column: u32,
}

/// What follows once the file of an entry was asked for.
#[derive(Clone, Copy, PartialEq, Eq, Debug, Structural)]
pub enum JumpStep {
    /// Nothing more.
    Stop,
    /// The editor is waited for until it has loaded its changes; then the cursor goes to the
    /// point, if there is one.
    Settle(Option<BufferPoint>),
}

impl JumplistEntry {
    /// Where the cursor goes.
    pub open spec fn target(self) -> Option<BufferPoint> {
        match self.row {
            Some(row) => Some(
                BufferPoint {
                    row: if row == 0 {
                        0
                    } else {
                        (row - 1) as u32
                    },
                    column: 0,
                },
            ),
            None => None,
        }
    }

    /// Returns what follows once the file was asked for; `opened` is `None` where it could
    /// not be opened, and else tells whether an editor shows it.
    pub fn jump_to_entry(&self, opened: Option<bool>) -> (res: JumpStep)
        ensures
            res == (if opened == Some(true) {
                JumpStep::Settle(self.target())
            } else {
                JumpStep::Stop
            }),
    {
        match opened {
            Some(true) => {
                let target = match self.row {
                    Some(row) => {
                        let row: u32 = if row == 0 {
                            0
                        } else {
                            row - 1
                        };
                        Some(BufferPoint { row, column: 0 })
                    },
                    None => None,
                };
                JumpStep::Settle(target)
            },
            _ => JumpStep::Stop,
        }
    }
}

/// Where an editor in a pane has the focus, the list is that of the pane; else it is that of
/// all panes together.
pub proof fn law_whose_places_are_listed(workspace: WorkspaceHistory)
    ensures
        workspace.focused_editor matches Some(pane) ==> pane < workspace.panes@.len()
            ==> workspace_jumplist(workspace) == jumplist(workspace.panes@[pane as int]@),
        workspace.focused_editor is None ==> workspace_jumplist(workspace) == jumplist(
            all_entries(workspace.panes@),
        ),
{
}

/// Rows are counted from one in an entry and from zero in a buffer; the cursor goes to the
/// start of the row. An entry without a row moves no cursor.
pub proof fn law_cursor_goes_to_the_row(entry: JumplistEntry)
    ensures
        entry.row is None ==> entry.target() is None,
        entry.row matches Some(row) ==> (entry.target() matches Some(point) && point.column == 0
            && (row > 0 ==> point.row + 1 == row) && (row == 0 ==> point.row == 0)),
{
}

} // verus!
