//! How a pane that follows a collaborator is decorated.

use vstd::prelude::*;
use vstd::string::*;

use crate::pane_group::tree::PaneId;

verus! {

/// Someone who can be followed.
#[derive(Clone, Copy, PartialEq, Eq, Debug, Structural)]
pub enum CollaboratorId {
    /// A peer in a call, by number.
    PeerId(u64),
    Agent,
}

/// How a collaborator is followed.
#[derive(Debug)]
pub struct FollowerState {
    pub center_pane: PaneId,
    /// The pane in a dock in which the collaborator is followed, if it is one.
    pub dock_pane: Option<PaneId>,
    /// What the collaborator looks at.
    pub active_view_id: Option<u64>,
    /// What of the collaborator's views can be shown here.
    pub items_by_leader_view_id: Vec<u64>,
}

/// Where a participant of a call is.
#[derive(Clone, Copy, PartialEq, Eq, Debug, Structural)]
pub enum ParticipantLocation {
    SharedProject { project_id: u64 },
    UnsharedProject,
    External,
}

/// A participant of a call.
#[derive(Debug)]
pub struct RemoteParticipant {
    pub peer_id: u64,
    pub user_id: u64,
    pub github_login: String,
    pub participant_index: u32,
    pub location: ParticipantLocation,
}

/// Whose color a border has.
#[derive(Clone, Copy, PartialEq, Eq, Debug, Structural)]
pub enum LeaderColor {
    Participant(u32),
    Agent,
}

/// How far the color of a border fades.
#[derive(Clone, Copy, PartialEq, Eq, Debug, Structural)]
pub enum LeaderFade {
    /// Far: the collaborator is followed in a dock.
    InPanel,
    /// Little: the collaborator is followed in the center.
    InCenter,
}

/// The border of a pane that follows a collaborator.
#[derive(Clone, Copy, PartialEq, Eq, Debug, Structural)]
pub struct LeaderBorder {
    pub color: LeaderColor,
    pub fade: LeaderFade,
}

/// The project that a click joins, and the user whom it joins there.
#[derive(Clone, Copy, PartialEq, Eq, Debug, Structural)]
pub struct JoinTarget {
    pub project_id: u64,
    pub user_id: u64,
}

/// A message over a pane that follows a collaborator.
#[derive(Debug)]
pub struct LeaderStatus {
    pub message: String,
    pub join: Option<JoinTarget>,
}

/// How a pane is decorated.
#[derive(Debug)]
pub struct LeaderDecoration {
    pub border: Option<LeaderBorder>,
    pub status_box: Option<LeaderStatus>,
}

/// What a [`LeaderStatus`] holds.
#[verifier::ext_equal]
pub struct StatusModel {
    pub message: Seq<char>,
    pub join: Option<JoinTarget>,
}

/// What a [`LeaderDecoration`] holds.
#[verifier::ext_equal]
pub struct DecorationModel {
    pub border: Option<LeaderBorder>,
    pub status_box: Option<StatusModel>,
}

impl View for LeaderStatus {
    type V = StatusModel;

    open spec fn view(&self) -> StatusModel {
        StatusModel { message: self.message@, join: self.join }
    }
}

impl View for LeaderDecoration {
    type V = DecorationModel;

    open spec fn view(&self) -> DecorationModel {
        DecorationModel {
            border: self.border,
            status_box: match self.status_box {
                Some(status) => Some(status@),
                None => None,
            },
        }
    }
}

/// Nothing is drawn over the pane.
pub open spec fn undecorated() -> DecorationModel {
    DecorationModel { border: None, status_box: None }
}

/// What drawing a tree of panes asks: which pane is active, and how a pane is decorated.
pub trait PaneLeaderDecorator {
    /// How a pane is decorated.
    spec fn decoration_of(&self, pane: PaneId) -> DecorationModel;

    /// The active pane.
    spec fn active(&self) -> PaneId;

    /// Returns how a pane is decorated.
    fn decorate(&self, pane: PaneId) -> (res: LeaderDecoration)
        ensures
            res@ == self.decoration_of(pane),
    ;

    /// Returns the active pane.
    fn active_pane(&self) -> (res: PaneId)
        ensures
            res == self.active(),
    ;
}

/// Decorates no pane.
#[derive(Clone, Copy, Debug)]
pub struct ActivePaneDecorator {
    active_pane: PaneId,
}

impl ActivePaneDecorator {
    /// A decorator for the given active pane.
    pub fn new(active_pane: PaneId) -> (res: ActivePaneDecorator)
        ensures
            res.active() == active_pane,
    {
        ActivePaneDecorator { active_pane }
    }
}

/// A decoration of which nothing is drawn.
fn plain() -> (res: LeaderDecoration)
    ensures
        res@ == undecorated(),
{
    LeaderDecoration { border: None, status_box: None }
}

impl PaneLeaderDecorator for ActivePaneDecorator {
    open spec fn decoration_of(&self, pane: PaneId) -> DecorationModel {
        undecorated()
    }

    closed spec fn active(&self) -> PaneId {
        self.active_pane
    }

    fn decorate(&self, pane: PaneId) -> (res: LeaderDecoration) {
        plain()
    }

    fn active_pane(&self) -> (res: PaneId) {
        self.active_pane
    }
}

/// Decorates the panes that follow a collaborator.
#[derive(Debug)]
pub struct PaneRenderContext {
    /// The number under which the project here is shared.
    pub remote_project_id: Option<u64>,
    pub follower_states: Vec<(CollaboratorId, FollowerState)>,
    /// The others in the call; nobody where there is no call.
    pub participants: Vec<RemoteParticipant>,
    pub active_pane: PaneId,
}

/// The first of the followed collaborators, from the one at `i` on, whom the pane follows.
pub open spec fn followed(
    states: Seq<(CollaboratorId, FollowerState)>,
    pane: PaneId,
    i: nat,
) -> Option<(CollaboratorId, FollowerState)>
    decreases states.len() - i,
{
    if i >= states.len() {
        None
    } else if states[i as int].1.center_pane == pane {
        Some(states[i as int])
    } else {
        followed(states, pane, i + 1)
    }
}

/// The first participant, from the one at `i` on, with a peer number.
pub open spec fn participant(participants: Seq<RemoteParticipant>, peer_id: u64, i: nat) -> Option<
    RemoteParticipant,
>
    decreases participants.len() - i,
{
    if i >= participants.len() {
        None
    } else if participants[i as int].peer_id == peer_id {
        Some(participants[i as int])
    } else {
        participant(participants, peer_id, i + 1)
    }
}

/// Whether a collaborator looks at something that cannot be shown here.
pub open spec fn in_unshared_view(state: FollowerState) -> bool {
    state.active_view_id is Some && !state.items_by_leader_view_id@.contains(
        state.active_view_id->0,
    )
}

/// The message over a pane that follows a participant.
pub open spec fn status_of(
    leader: RemoteParticipant,
    remote_project_id: Option<u64>,
    unshared_view: bool,
) -> Option<StatusModel> {
    let login = leader.github_login@;
    match leader.location {
        ParticipantLocation::SharedProject { project_id } => if remote_project_id == Some(
            project_id,
        ) {
            if unshared_view {
                Some(StatusModel { message: login + " is in an unshared pane"@, join: None })
            } else {
                None
            }
        } else {
            Some(
                StatusModel {
                    message: "Follow "@ + login + " to their active project"@,
                    join: Some(JoinTarget { project_id, user_id: leader.user_id }),
                },
            )
        },
        ParticipantLocation::UnsharedProject => Some(
            StatusModel { message: login + " is viewing an unshared Zed project"@, join: None },
        ),
        ParticipantLocation::External => Some(
            StatusModel { message: login + " is viewing a window outside of Zed"@, join: None },
        ),
    }
}

/// How the border fades.
pub open spec fn fade_of(state: FollowerState) -> LeaderFade {
    if state.dock_pane is Some {
        LeaderFade::InPanel
    } else {
        LeaderFade::InCenter
    }
}

/// How a pane is decorated: not at all where it follows nobody, or someone who is not in
/// the call; with a border where it follows an agent; and with a border and a message where
/// it follows a participant.
pub open spec fn decoration(context: PaneRenderContext, pane: PaneId) -> DecorationModel {
    match followed(context.follower_states@, pane, 0) {
        None => undecorated(),
        Some((CollaboratorId::Agent, state)) => DecorationModel {
            border: Some(LeaderBorder { color: LeaderColor::Agent, fade: fade_of(state) }),
            status_box: None,
        },
        Some((CollaboratorId::PeerId(peer_id), state)) => match participant(
            context.participants@,
            peer_id,
            0,
        ) {
            None => undecorated(),
            Some(leader) => DecorationModel {
                border: Some(
                    LeaderBorder {
                        color: LeaderColor::Participant(leader.participant_index),
                        fade: fade_of(state),
                    },
                ),
                status_box: status_of(
                    leader,
                    context.remote_project_id,
                    in_unshared_view(state),
                ),
            },
        },
    }
}

/// A message is shown only over a pane with a border, and only a message about a project
/// other than the one here can be clicked.
pub proof fn law_decoration(context: PaneRenderContext, pane: PaneId)
    ensures
        decoration(context, pane).status_box is Some ==> decoration(context, pane).border is Some,
        decoration(context, pane).status_box matches Some(status) ==> status.join matches Some(
            target,
        ) ==> context.remote_project_id != Some(target.project_id),
{
}

proof fn lemma_followed(
    states: Seq<(CollaboratorId, FollowerState)>,
    pane: PaneId,
    i: nat,
    at: nat,
)
    requires
        i <= at <= states.len(),
        forall|j: int| i <= j < at ==> (#[trigger] states[j]).1.center_pane != pane,
    ensures
        at < states.len() && states[at as int].1.center_pane == pane ==> followed(states, pane, i)
            == Some(states[at as int]),
        at == states.len() ==> followed(states, pane, i) is None,
    decreases at - i,
{
    if i < at {
        assert(states[i as int].1.center_pane != pane);
        lemma_followed(states, pane, i + 1, at);
    }
}

proof fn lemma_participant(
    participants: Seq<RemoteParticipant>,
    peer_id: u64,
    i: nat,
    at: nat,
)
    requires
        i <= at <= participants.len(),
        forall|j: int| i <= j < at ==> (#[trigger] participants[j]).peer_id != peer_id,
    ensures
        at < participants.len() && participants[at as int].peer_id == peer_id ==> participant(
            participants,
            peer_id,
            i,
        ) == Some(participants[at as int]),
        at == participants.len() ==> participant(participants, peer_id, i) is None,
    decreases at - i,
{
    if i < at {
        assert(participants[i as int].peer_id != peer_id);
        lemma_participant(participants, peer_id, i + 1, at);
    }
}

/// A pane that nobody is followed in is not decorated.
pub proof fn law_pane_without_leader_is_plain(context: PaneRenderContext, pane: PaneId)
    requires
        forall|j: int|
            0 <= j < context.follower_states@.len() ==> (
            #[trigger] context.follower_states@[j]).1.center_pane != pane,
    ensures
        decoration(context, pane).border is None,
        decoration(context, pane).status_box is None,
{
    let states = context.follower_states@;
    lemma_followed(states, pane, 0, states.len());
}

/// The border of a pane fades far exactly if the leader is followed in a dock, and has the
/// color of that leader: the agent's, or that of the participant with the same peer number.
/// A pane whose leader is not in the call has none.
pub proof fn law_border_tells_the_leader(
    context: PaneRenderContext,
    pane: PaneId,
    i: int,
    at: nat,
)
    requires
        0 <= i < context.follower_states@.len(),
        context.follower_states@[i].1.center_pane == pane,
        forall|j: int|
            0 <= j < i ==> (#[trigger] context.follower_states@[j]).1.center_pane != pane,
        context.follower_states@[i].0 matches CollaboratorId::PeerId(peer) ==> {
            &&& at <= context.participants@.len()
            &&& at < context.participants@.len() ==> context.participants@[at as int].peer_id
                == peer
            &&& forall|j: int|
                0 <= j < at ==> (#[trigger] context.participants@[j]).peer_id != peer
        },
    ensures
        ({
            let (leader, state) = context.follower_states@[i];
            let drawn = decoration(context, pane);
            &&& drawn.border matches Some(border) ==> (border.fade == LeaderFade::InPanel <==>
                state.dock_pane is Some)
            &&& leader is Agent ==> {
                &&& drawn.border matches Some(border) && border.color == LeaderColor::Agent
                &&& drawn.status_box is None
            }
            &&& leader is PeerId && at < context.participants@.len() ==> {
                let participant = context.participants@[at as int];
                &&& drawn.border matches Some(border) && border.color == LeaderColor::Participant(
                    participant.participant_index,
                )
                &&& drawn.status_box == status_of(
                    participant,
                    context.remote_project_id,
                    in_unshared_view(state),
                )
            }
            &&& leader is PeerId && at == context.participants@.len() ==> drawn.border is None
                && drawn.status_box is None
        }),
{
    let states = context.follower_states@;
    lemma_followed(states, pane, 0, i as nat);
    if let CollaboratorId::PeerId(peer) = states[i].0 {
        lemma_participant(context.participants@, peer, 0, at);
    }
}

/// A leader in the project here is told of only where the view cannot be shown. A leader in
/// another shared project can be joined there, and nobody else can be joined.
pub proof fn law_status_tells_where_the_leader_is(
    leader: RemoteParticipant,
    here: Option<u64>,
    unshared_view: bool,
)
    ensures
        ({
            let status = status_of(leader, here, unshared_view);
            let name = leader.github_login@;
            match leader.location {
                ParticipantLocation::SharedProject { project_id } => if here == Some(project_id) {
                    &&& status is Some <==> unshared_view
                    &&& status matches Some(told) ==> told.message == name
                        + " is in an unshared pane"@ && told.join is None
                } else {
                    status matches Some(told) && told.message == "Follow "@ + name
                        + " to their active project"@ && (told.join matches Some(target)
                        && target.project_id == project_id && target.user_id == leader.user_id)
                },
                ParticipantLocation::UnsharedProject => status matches Some(told) && told.message
                    == name + " is viewing an unshared Zed project"@ && told.join is None,
                ParticipantLocation::External => status matches Some(told) && told.message == name
                    + " is viewing a window outside of Zed"@ && told.join is None,
            }
        }),
{
}

/// A view cannot be shown exactly if the leader looks at one that is not among those here.
pub proof fn law_unshared_view(state: FollowerState)
    ensures
        in_unshared_view(state) <==> (state.active_view_id matches Some(view) && forall|k: int|
            0 <= k < state.items_by_leader_view_id@.len()
                ==> #[trigger] state.items_by_leader_view_id@[k] != view),
{
}

/// Puts a name between two pieces of text.
fn message(before: &str, login: &String, after: &str) -> (res: String)
    ensures
        res@ == before@ + login@ + after@,
{
    let mut res = before.to_string();
    res.append(login.as_str());
    res.append(after);
    res
}

impl FollowerState {
    /// Whether the collaborator looks at something that cannot be shown here.
    fn is_in_unshared_view(&self) -> (res: bool)
        ensures
            res == in_unshared_view(*self),
    {
        let Some(view_id) = self.active_view_id else {
            return false;
        };
        let mut i: usize = 0;
        while i < self.items_by_leader_view_id.len()
            invariant
                i <= self.items_by_leader_view_id@.len(),
                self.active_view_id == Some(view_id),
                forall|j: int| 0 <= j < i ==> self.items_by_leader_view_id@[j] != view_id,
            decreases self.items_by_leader_view_id@.len() - i,
        {
            if self.items_by_leader_view_id[i] == view_id {
                assert(self.items_by_leader_view_id@[i as int] == view_id);
                return false;
            }
            i += 1;
        }
        true
    }

    /// How the border fades.
    fn fade(&self) -> (res: LeaderFade)
        ensures
            res == fade_of(*self),
    {
        if self.dock_pane.is_some() {
            LeaderFade::InPanel
        } else {
            LeaderFade::InCenter
        }
    }
}

impl RemoteParticipant {
    /// The message over a pane that follows the participant.
    pub fn status(&self, remote_project_id: Option<u64>, unshared_view: bool) -> (res: Option<
        LeaderStatus,
    >)
        ensures
            match res {
                Some(status) => Some(status@),
                None => None,
            } == status_of(*self, remote_project_id, unshared_view),
    {
        proof {
            reveal_strlit("");
            assert(""@ + self.github_login@ =~= self.github_login@);
        }
        match self.location {
            ParticipantLocation::SharedProject { project_id } => {
                let here = match remote_project_id {
                    Some(remote_id) => remote_id == project_id,
                    None => false,
                };
                if !here {
                    let join = JoinTarget { project_id, user_id: self.user_id };
                    let message = message("Follow ", &self.github_login, " to their active project");
                    Some(LeaderStatus { message, join: Some(join) })
                } else if unshared_view {
                    let message = message("", &self.github_login, " is in an unshared pane");
                    Some(LeaderStatus { message, join: None })
                } else {
                    None
                }
            },
            ParticipantLocation::UnsharedProject => {
                let message = message(
                    "",
                    &self.github_login,
                    " is viewing an unshared Zed project",
                );
                Some(LeaderStatus { message, join: None })
            },
            ParticipantLocation::External => {
                let message = message(
                    "",
                    &self.github_login,
                    " is viewing a window outside of Zed",
                );
                Some(LeaderStatus { message, join: None })
            },
        }
    }
}

impl PaneRenderContext {
    /// The index of the first of the followed collaborators whom the pane follows.
    fn followed_index(&self, pane: PaneId) -> (res: Option<usize>)
        ensures
            match res {
                Some(i) => i < self.follower_states@.len() && followed(
                    self.follower_states@,
                    pane,
                    0,
                ) == Some(self.follower_states@[i as int]),
                None => followed(self.follower_states@, pane, 0) is None,
            },
    {
        let mut i: usize = 0;
        while i < self.follower_states.len()
            invariant
                i <= self.follower_states@.len(),
                followed(self.follower_states@, pane, 0) == followed(
                    self.follower_states@,
                    pane,
                    i as nat,
                ),
            decreases self.follower_states@.len() - i,
        {
            if self.follower_states[i].1.center_pane == pane {
                return Some(i);
            }
            i += 1;
        }
        None
    }

    /// The index of the first participant with a peer number.
    fn participant_index(&self, peer_id: u64) -> (res: Option<usize>)
        ensures
            match res {
                Some(i) => i < self.participants@.len() && participant(
                    self.participants@,
                    peer_id,
                    0,
                ) == Some(self.participants@[i as int]),
                None => participant(self.participants@, peer_id, 0) is None,
            },
    {
        let mut i: usize = 0;
        while i < self.participants.len()
            invariant
                i <= self.participants@.len(),
                participant(self.participants@, peer_id, 0) == participant(
                    self.participants@,
                    peer_id,
                    i as nat,
                ),
            decreases self.participants@.len() - i,
        {
            if self.participants[i].peer_id == peer_id {
                return Some(i);
            }
            i += 1;
        }
        None
    }
}

impl PaneLeaderDecorator for PaneRenderContext {
    open spec fn decoration_of(&self, pane: PaneId) -> DecorationModel {
        decoration(*self, pane)
    }

    open spec fn active(&self) -> PaneId {
        self.active_pane
    }

    fn decorate(&self, pane: PaneId) -> (res: LeaderDecoration) {
        let Some(at) = self.followed_index(pane) else {
            return plain();
        };
        let state = &self.follower_states[at].1;
        match self.follower_states[at].0 {
            CollaboratorId::Agent => {
                let border = LeaderBorder { color: LeaderColor::Agent, fade: state.fade() };
                LeaderDecoration { border: Some(border), status_box: None }
            },
            CollaboratorId::PeerId(peer_id) => {
                let Some(index) = self.participant_index(peer_id) else {
                    return plain();
                };
                let leader = &self.participants[index];
                let color = LeaderColor::Participant(leader.participant_index);
                let unshared_view = state.is_in_unshared_view();
                LeaderDecoration {
                    border: Some(LeaderBorder { color, fade: state.fade() }),
                    status_box: leader.status(self.remote_project_id, unshared_view),
                }
            },
        }
    }

    fn active_pane(&self) -> (res: PaneId) {
        self.active_pane
    }
}

} // verus!
