//! Which actions the command palette shows.

use std::collections::HashMap;
use std::collections::HashSet;

use vstd::prelude::*;
use vstd::string::*;

verus! {

broadcast use vstd::std_specs::hash::group_hash_axioms;

/// Names the type of an action.
pub type ActionType = u64;

/// What actions the palette hides.
pub struct CommandPaletteFilter {
    hidden_namespaces: Vec<String>,
    hidden_action_types: HashSet<ActionType>,
    /// Actions that were shown by name: they are not hidden with their namespace.
    shown_action_types: HashSet<ActionType>,
}

/// What a [`CommandPaletteFilter`] holds.
#[verifier::ext_equal]
pub struct FilterModel {
    pub namespaces: Set<Seq<char>>,
    pub hidden: Set<ActionType>,
    pub shown: Set<ActionType>,
}

/// Whether a text is among others.
spec fn is_among(texts: Seq<String>, text: Seq<char>) -> bool {
    exists|i: int| 0 <= i < texts.len() && (#[trigger] texts[i])@ == text
}

impl View for CommandPaletteFilter {
    type V = FilterModel;

    closed spec fn view(&self) -> FilterModel {
        FilterModel {
            namespaces: Set::new(|text: Seq<char>| is_among(self.hidden_namespaces@, text)),
            hidden: self.hidden_action_types@,
            shown: self.shown_action_types@,
        }
    }
}

/// Where the first `::` of a name is, from `i` on, or the end of the name.
pub open spec fn separator_from(name: Seq<char>, i: int) -> int
    decreases name.len() - i,
{
    if i + 1 >= name.len() {
        name.len() as int
    } else if name[i] == ':' && name[i + 1] == ':' {
        i
    } else {
        separator_from(name, i + 1)
    }
}

/// The namespace of an action: what stands before the first `::` of its name.
pub open spec fn namespace_of(name: Seq<char>) -> Seq<char> {
    name.take(separator_from(name, 0))
}

/// Whether an action is hidden: it was not shown by name, and either was hidden by name or
/// is in a hidden namespace.
pub open spec fn hides(filter: FilterModel, name: Seq<char>, action_type: ActionType) -> bool {
    &&& !filter.shown.contains(action_type)
    &&& filter.namespaces.contains(namespace_of(name)) || filter.hidden.contains(action_type)
}

/// The filter after all actions of the given types were hidden.
pub open spec fn with_hidden(filter: FilterModel, action_types: Seq<ActionType>) -> FilterModel {
    FilterModel {
        hidden: filter.hidden.union(action_types.to_set()),
        shown: filter.shown.difference(action_types.to_set()),
        ..filter
    }
}

/// The filter after all actions of the given types were shown.
pub open spec fn with_shown(filter: FilterModel, action_types: Seq<ActionType>) -> FilterModel {
    FilterModel {
        hidden: filter.hidden.difference(action_types.to_set()),
        shown: filter.shown.union(action_types.to_set()),
        ..filter
    }
}

/// Whether no action counts both as hidden and as shown by name.
pub open spec fn is_consistent(filter: FilterModel) -> bool {
    filter.hidden.disjoint(filter.shown)
}

/// An action that was hidden by name is hidden, one that was shown by name is shown, in
/// whatever namespace it is; and no action counts as both.
pub proof fn law_named_actions(
    filter: FilterModel,
    action_types: Seq<ActionType>,
    name: Seq<char>,
    action_type: ActionType,
)
    requires
        action_types.contains(action_type),
    ensures
        hides(with_hidden(filter, action_types), name, action_type),
        !hides(with_shown(filter, action_types), name, action_type),
        is_consistent(filter) ==> is_consistent(with_hidden(filter, action_types)),
        is_consistent(filter) ==> is_consistent(with_shown(filter, action_types)),
{
}

/// Hiding and showing a namespace decides on the actions in it that were neither hidden nor
/// shown by name, and on no others.
pub proof fn law_namespaces(
    filter: FilterModel,
    namespace: Seq<char>,
    name: Seq<char>,
    action_type: ActionType,
)
    ensures
        ({
            let hidden = FilterModel { namespaces: filter.namespaces.insert(namespace), ..filter };
            let shown = FilterModel { namespaces: filter.namespaces.remove(namespace), ..filter };
            let by_name = filter.hidden.contains(action_type) || filter.shown.contains(action_type);
            if namespace_of(name) == namespace && !by_name {
                hides(hidden, name, action_type) && !hides(shown, name, action_type)
            } else {
                hides(hidden, name, action_type) == hides(filter, name, action_type) && hides(
                    shown,
                    name,
                    action_type,
                ) == hides(filter, name, action_type)
            }
        }),
{
}

proof fn lemma_separator(name: Seq<char>, i: int)
    requires
        0 <= i <= name.len(),
    ensures
        i <= separator_from(name, i) <= name.len(),
        separator_from(name, i) < name.len() ==> separates(name, separator_from(name, i)),
        forall|k: int| i <= k < separator_from(name, i) ==> !#[trigger] separates(name, k),
    decreases name.len() - i,
{
    if i + 1 < name.len() && !(name[i] == ':' && name[i + 1] == ':') {
        lemma_separator(name, i + 1);
    }
}

/// Whether `::` stands in a name from `k` on.
pub open spec fn separates(name: Seq<char>, k: int) -> bool {
    0 <= k && k + 1 < name.len() && name[k] == ':' && name[k + 1] == ':'
}

/// The namespace of an action is how its name starts: up to the first `::`, or all of it
/// where there is none.
pub proof fn law_namespace_ends_at_the_first_separator(name: Seq<char>)
    ensures
        namespace_of(name).is_prefix_of(name),
        namespace_of(name) != name ==> separates(name, namespace_of(name).len() as int),
        forall|k: int| 0 <= k < namespace_of(name).len() ==> !#[trigger] separates(name, k),
{
    lemma_separator(name, 0);
    if namespace_of(name).len() == name.len() {
        assert(namespace_of(name) =~= name);
    }
}

/// An action is hidden exactly if it was not shown by name and it, or its namespace, was
/// hidden.
pub proof fn law_what_is_hidden(filter: FilterModel, name: Seq<char>, action_type: ActionType)
    ensures
        filter.shown.contains(action_type) ==> !hides(filter, name, action_type),
        !filter.shown.contains(action_type) && filter.hidden.contains(action_type) ==> hides(
            filter,
            name,
            action_type,
        ),
        !filter.shown.contains(action_type) && !filter.hidden.contains(action_type) ==> (hides(
            filter,
            name,
            action_type,
        ) <==> filter.namespaces.contains(namespace_of(name))),
{
}

/// Hiding or showing actions by name decides on no other action.
pub proof fn law_other_actions_stay(
    filter: FilterModel,
    action_types: Seq<ActionType>,
    name: Seq<char>,
    action_type: ActionType,
)
    requires
        !action_types.contains(action_type),
    ensures
        hides(with_hidden(filter, action_types), name, action_type) == hides(
            filter,
            name,
            action_type,
        ),
        hides(with_shown(filter, action_types), name, action_type) == hides(
            filter,
            name,
            action_type,
        ),
        with_hidden(filter, action_types).namespaces == filter.namespaces,
        with_shown(filter, action_types).namespaces == filter.namespaces,
{
}

/// Returns the namespace of an action: what stands before the first `::` of its name.
pub fn action_namespace(name: &str) -> (res: String)
    ensures
        res@ == namespace_of(name@),
{
    broadcast use axiom_spec_iter;

    let mut chars: Vec<char> = Vec::new();
    for c in it: name.chars()
        invariant
            it.seq() == name@,
            chars@ == name@.take(it.index()),
    {
        assert(name@.take(it.index() + 1) =~= chars@.push(c));
        chars.push(c);
    }
    assert(chars@ =~= name@);
    let len = chars.len();
    let mut i: usize = 0;
    while i < len && len - i > 1
        invariant
            i <= len,
            len == chars@.len(),
            chars@ == name@,
            separator_from(name@, 0) == separator_from(name@, i as int),
        decreases len - i,
    {
        if chars[i] == ':' && chars[i + 1] == ':' {
            assert(name@.subrange(0, i as int) =~= name@.take(i as int));
            return name.substring_char(0, i).to_owned();
        }
        i += 1;
    }
    assert(name@.take(len as int) =~= name@);
    name.to_owned()
}

/// Whether a text is among others.
fn contains_text(texts: &Vec<String>, text: &String) -> (res: bool)
    ensures
        res == is_among(texts@, text@),
{
    let mut i: usize = 0;
    while i < texts.len()
        invariant
            i <= texts@.len(),
            forall|j: int| 0 <= j < i ==> (#[trigger] texts@[j])@ != text@,
        decreases texts@.len() - i,
    {
        if texts[i] == *text {
            return true;
        }
        i += 1;
    }
    false
}

impl Default for CommandPaletteFilter {
    fn default() -> (res: CommandPaletteFilter)
        ensures
            res@ == (FilterModel {
                namespaces: Set::empty(),
                hidden: Set::empty(),
                shown: Set::empty(),
            }),
    {
        let res = CommandPaletteFilter {
            hidden_namespaces: Vec::new(),
            hidden_action_types: HashSet::new(),
            shown_action_types: HashSet::new(),
        };
        assert(res@.namespaces =~= Set::empty());
        res
    }
}

impl CommandPaletteFilter {
    /// Returns whether the action with the given name and type is hidden.
    pub fn is_hidden(&self, name: &str, action_type: ActionType) -> (res: bool)
        ensures
            res == hides(self@, name@, action_type),
    {
        if self.shown_action_types.contains(&action_type) {
            return false;
        }
        let namespace = action_namespace(name);
        contains_text(&self.hidden_namespaces, &namespace) || self.hidden_action_types.contains(
            &action_type,
        )
    }

    /// Hides all actions in a namespace, but for those that were shown by name.
    pub fn hide_namespace(&mut self, namespace: &str)
        ensures
            final(self)@ == (FilterModel {
                namespaces: old(self)@.namespaces.insert(namespace@),
                ..old(self)@
            }),
    {
        let namespace = namespace.to_owned();
        let ghost before = self.hidden_namespaces@;
        if !contains_text(&self.hidden_namespaces, &namespace) {
            self.hidden_namespaces.push(namespace);
            proof {
                lemma_one_more(before, namespace);
            }
        }
        assert(self@.namespaces =~= old(self)@.namespaces.insert(namespace@));
    }

    /// Shows all actions in a namespace, but for those that were hidden by name.
    pub fn show_namespace(&mut self, namespace: &str)
        ensures
            final(self)@ == (FilterModel {
                namespaces: old(self)@.namespaces.remove(namespace@),
                ..old(self)@
            }),
    {
        let namespace = namespace.to_owned();
        let ghost before = self.hidden_namespaces@;
        let mut kept: Vec<String> = Vec::new();
        let mut i: usize = 0;
        while i < self.hidden_namespaces.len()
            invariant
                i <= self.hidden_namespaces@.len(),
                before == self.hidden_namespaces@,
                self.hidden_action_types == old(self).hidden_action_types,
                self.shown_action_types == old(self).shown_action_types,
                forall|text: Seq<char>| #[trigger]
                    is_among(kept@, text) <==> is_among(before.take(i as int), text) && text
                        != namespace@,
            decreases self.hidden_namespaces@.len() - i,
        {
            let ghost had = kept@;
            let ghost text_here = before[i as int]@;
            if self.hidden_namespaces[i] != namespace {
                kept.push(self.hidden_namespaces[i].clone());
            }
            proof {
                lemma_one_more(before.take(i as int), before[i as int]);
                assert(before.take(i + 1) =~= before.take(i as int).push(before[i as int]));
                if text_here != namespace@ {
                    lemma_one_more(had, before[i as int]);
                    assert(kept@ =~= had.push(before[i as int]));
                }
            }
            i += 1;
        }
        assert(before.take(i as int) =~= before);
        self.hidden_namespaces = kept;
        assert(self@.namespaces =~= old(self)@.namespaces.remove(namespace@));
    }

    /// Hides all actions of the given types.
    pub fn hide_action_types(&mut self, action_types: &Vec<ActionType>)
        ensures
            final(self)@ == with_hidden(old(self)@, action_types@),
    {
        let ghost start = self@;
        let mut i: usize = 0;
        assert(self@ =~= with_hidden(start, action_types@.take(0)));
        while i < action_types.len()
            invariant
                i <= action_types@.len(),
                self@ == with_hidden(start, action_types@.take(i as int)),
            decreases action_types@.len() - i,
        {
            let ghost before = self@;
            self.hidden_action_types.insert(action_types[i]);
            self.shown_action_types.remove(&action_types[i]);
            proof {
                lemma_one_more_type(action_types@, i as int);
                assert(self@.namespaces =~= before.namespaces);
                assert(self@ =~= with_hidden(start, action_types@.take(i + 1)));
            }
            i += 1;
        }
        assert(action_types@.take(i as int) =~= action_types@);
    }

    /// Shows all actions of the given types, also where their namespace is hidden.
    pub fn show_action_types(&mut self, action_types: &Vec<ActionType>)
        ensures
            final(self)@ == with_shown(old(self)@, action_types@),
    {
        let ghost start = self@;
        let mut i: usize = 0;
        assert(self@ =~= with_shown(start, action_types@.take(0)));
        while i < action_types.len()
            invariant
                i <= action_types@.len(),
                self@ == with_shown(start, action_types@.take(i as int)),
            decreases action_types@.len() - i,
        {
            let ghost before = self@;
            self.shown_action_types.insert(action_types[i]);
            self.hidden_action_types.remove(&action_types[i]);
            proof {
                lemma_one_more_type(action_types@, i as int);
                assert(self@.namespaces =~= before.namespaces);
                assert(self@ =~= with_shown(start, action_types@.take(i + 1)));
            }
            i += 1;
        }
        assert(action_types@.take(i as int) =~= action_types@);
    }
}

proof fn lemma_one_more(texts: Seq<String>, more: String)
    ensures
        forall|text: Seq<char>| #[trigger]
            is_among(texts.push(more), text) <==> is_among(texts, text) || text == more@,
{
    let after = texts.push(more);
    assert forall|text: Seq<char>| #[trigger] is_among(after, text) <==> is_among(texts, text)
        || text == more@ by {
        if is_among(texts, text) {
            let i = choose|i: int| 0 <= i < texts.len() && (#[trigger] texts[i])@ == text;
            assert(after[i]@ == text);
        }
        if text == more@ {
            assert(after[texts.len() as int]@ == text);
        }
        if is_among(after, text) && text != more@ {
            let i = choose|i: int| 0 <= i < after.len() && (#[trigger] after[i])@ == text;
            assert(texts[i]@ == text);
        }
    }
}

proof fn lemma_one_more_type(action_types: Seq<ActionType>, i: int)
    requires
        0 <= i < action_types.len(),
    ensures
        action_types.take(i + 1).to_set() == action_types.take(i).to_set().insert(action_types[i]),
{
    let (shorter, longer) = (action_types.take(i), action_types.take(i + 1));
    assert(longer =~= shorter.push(action_types[i]));
    assert forall|t: ActionType| longer.contains(t) <==> shorter.contains(t) || t
        == action_types[i] by {
        if shorter.contains(t) {
            assert(longer[shorter.index_of(t)] == t);
        }
        if t == action_types[i] {
            assert(longer[i] == t);
        }
        if longer.contains(t) && t != action_types[i] {
            assert(shorter[longer.index_of(t)] == t);
        }
    }
    assert(longer.to_set() =~= shorter.to_set().insert(action_types[i]));
}

/// What an interceptor makes of a query: an action that the palette offers.
#[derive(Debug)]
pub struct CommandInterceptItem<A> {
    pub action: A,
    /// What the palette shows for it.
    pub string: String,
    /// The characters of the string that match the query.
    pub positions: Vec<usize>,
}

/// All that an interceptor makes of a query.
#[derive(Debug)]
pub struct CommandInterceptResult<A> {
    pub results: Vec<CommandInterceptItem<A>>,
    /// Whether nothing else is offered.
    pub exclusive: bool,
}

impl<A> Default for CommandInterceptResult<A> {
    fn default() -> (res: CommandInterceptResult<A>)
        ensures
            res.results@.len() == 0,
            !res.exclusive,
    {
        CommandInterceptResult { results: Vec::new(), exclusive: false }
    }
}

/// The interceptor that is asked first, if there is one.
pub struct GlobalCommandPaletteInterceptor<H> {
    handler: Option<H>,
}

impl<H> View for GlobalCommandPaletteInterceptor<H> {
    type V = Option<H>;

    closed spec fn view(&self) -> Option<H> {
        self.handler
    }
}

impl<H> GlobalCommandPaletteInterceptor<H> {
    /// There is no interceptor.
    pub fn new() -> (res: GlobalCommandPaletteInterceptor<H>)
        ensures
            res@ is None,
    {
        GlobalCommandPaletteInterceptor { handler: None }
    }

    /// Sets the interceptor, in place of the one before.
    pub fn set(&mut self, interceptor: H)
        ensures
            final(self)@ == Some(interceptor),
    {
        self.handler = Some(interceptor);
    }

    /// Takes the interceptor away, if there is one.
    pub fn clear(&mut self)
        ensures
            final(self)@ is None,
    {
        self.handler = None;
    }

    /// Returns the interceptor to ask, if there is one.
    pub fn intercept(&self) -> (res: Option<&H>)
        ensures
            match res {
                Some(handler) => self@ == Some(*handler),
                None => self@ is None,
            },
    {
        match &self.handler {
            Some(handler) => Some(handler),
            None => None,
        }
    }
}

/// What a selection is of.
#[derive(Clone, Copy, PartialEq, Eq, Hash, Debug, Structural)]
pub enum ObjectKind {
    /// Text of a buffer.
    Text,
    /// A file.
    File,
    /// A directory.
    Dir,
    /// A hunk of a diff.
    Hunk,
    /// A commit.
    Commit,
    /// A branch.
    Branch,
    /// A command in a terminal and what it put out.
    Block,
    /// A URL.
    Url,
    /// A diagnostic.
    Diagnostic,
    /// A message of a conversation.
    Message,
}

/// What kinds of selection actions accept. An action that is not registered accepts any,
/// and so does one that is registered with no kind at all.
pub struct ActionAcceptsRegistry {
    accepts: HashMap<ActionType, Vec<ObjectKind>>,
}

impl View for ActionAcceptsRegistry {
    type V = Map<ActionType, Seq<ObjectKind>>;

    closed spec fn view(&self) -> Map<ActionType, Seq<ObjectKind>> {
        self.accepts@.map_values(|kinds: Vec<ObjectKind>| kinds@)
    }
}

/// Whether an action is applicable to a selection of the given kind, or without one.
pub open spec fn accepts(
    registry: Map<ActionType, Seq<ObjectKind>>,
    action_type: ActionType,
    selection_kind: Option<ObjectKind>,
) -> bool {
    ||| !registry.contains_key(action_type)
    ||| registry[action_type].len() == 0
    ||| selection_kind is None
    ||| registry[action_type].contains(selection_kind->0)
}

/// An action that was registered is applicable to just the kinds it was registered with, or
/// to any where there is none; without a selection every action is applicable, and so is one
/// that was not registered. Other actions are not affected.
pub proof fn law_registered_kinds_decide(
    registry: Map<ActionType, Seq<ObjectKind>>,
    action_type: ActionType,
    kinds: Seq<ObjectKind>,
    kind: ObjectKind,
    other: ActionType,
    selection: Option<ObjectKind>,
)
    ensures
        accepts(registry.insert(action_type, kinds), action_type, Some(kind)) <==> kinds.len() == 0
            || exists|i: int| 0 <= i < kinds.len() && #[trigger] kinds[i] == kind,
        accepts(registry.insert(action_type, kinds), action_type, None),
        other != action_type ==> accepts(registry.insert(action_type, kinds), other, selection)
            == accepts(registry, other, selection),
        !registry.contains_key(other) ==> accepts(registry, other, selection),
{
}

impl Default for ActionAcceptsRegistry {
    fn default() -> (res: ActionAcceptsRegistry)
        ensures
            res@ == Map::<ActionType, Seq<ObjectKind>>::empty(),
    {
        let res = ActionAcceptsRegistry { accepts: HashMap::new() };
        assert(res@ =~= Map::<ActionType, Seq<ObjectKind>>::empty());
        res
    }
}

impl ActionAcceptsRegistry {
    /// Registers the kinds that an action accepts, in place of those before.
    pub fn register(&mut self, action_type: ActionType, accepts: Vec<ObjectKind>)
        ensures
            final(self)@ == old(self)@.insert(action_type, accepts@),
    {
        self.accepts.insert(action_type, accepts);
        assert(self@ =~= old(self)@.insert(action_type, accepts@));
    }

    /// Returns whether an action is applicable to a selection of the given kind; without a
    /// selection, every action is.
    pub fn is_applicable(&self, action_type: ActionType, selection_kind: Option<ObjectKind>) -> (res:
        bool)
        ensures
            res == accepts(self@, action_type, selection_kind),
    {
        let Some(kinds) = self.accepts.get(&action_type) else {
            return true;
        };
        assert(self@[action_type] == kinds@);
        let Some(kind) = selection_kind else {
            return true;
        };
        if kinds.len() == 0 {
            return true;
        }
        let mut i: usize = 0;
        while i < kinds.len()
            invariant
                i <= kinds@.len(),
                self@[action_type] == kinds@,
                selection_kind == Some(kind),
                forall|j: int| 0 <= j < i ==> kinds@[j] != kind,
            decreases kinds@.len() - i,
        {
            if kinds[i] == kind {
                assert(kinds@.contains(kind));
                return true;
            }
            i += 1;
        }
        false
    }
}

} // verus!
