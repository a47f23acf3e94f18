//! Ranking the Codex sessions that Herdr knows of.
//!
//! Herdr tracks the agent running in each pane and records its session id, so
//! the pane a selection was dragged out of names its own transcript. That is
//! only ever a hint: the answer still has to be found in the transcript, so a
//! wrong guess here costs a few milliseconds rather than a wrong result.

use vstd::prelude::*;

use crate::lists::{distinct, lemma_distinct, lemma_distinct_order};
use crate::text::{copy_text, is_text, option_view, owned, same_text, string_view, views};

verus! {

/// A pane as Herdr lists it.
#[derive(Debug)]
pub struct Pane {
    pub pane_id: String,
    pub tab_id: String,
    pub workspace_id: String,
    pub focused: bool,
    pub agent: Option<String>,
    pub agent_session: Option<AgentSession>,
    pub cwd: Option<String>,
}

/// The session of the agent in a pane.
#[derive(Debug)]
pub struct AgentSession {
    pub value: Option<String>,
}

impl Clone for Pane {
    fn clone(&self) -> (copy: Self)
        ensures
            copy == *self,
    {
        Pane {
            pane_id: self.pane_id.clone(),
            tab_id: self.tab_id.clone(),
            workspace_id: self.workspace_id.clone(),
            focused: self.focused,
            agent: copy_text(&self.agent),
            agent_session: match &self.agent_session {
                Some(session) => Some(session.clone()),
                None => None,
            },
            cwd: copy_text(&self.cwd),
        }
    }
}

impl Clone for AgentSession {
    fn clone(&self) -> (copy: Self)
        ensures
            copy == *self,
    {
        AgentSession { value: copy_text(&self.value) }
    }
}

impl Pane {
    /// The Codex session this pane is running, if it is running one.
    pub open spec fn codex(self) -> Option<Seq<char>> {
        if string_view(self.agent) == Some("codex"@) {
            match self.agent_session {
                Some(session) => string_view(session.value),
                None => None,
            }
        } else {
            None
        }
    }

    /// The Codex session this pane is running, if it is running one.
    pub fn codex_session(&self) -> (session: Option<&str>)
        ensures
            option_view(session) == self.codex(),
    {
        let agent = match &self.agent {
            Some(agent) => Some(agent.as_str()),
            None => None,
        };
        if !is_text(agent, "codex") {
            return None;
        }
        match &self.agent_session {
            Some(session) => match &session.value {
                Some(value) => Some(value.as_str()),
                None => None,
            },
            None => None,
        }
    }
}

// Ranking

/// The first pane with the given id.
pub open spec fn pane_of(panes: Seq<Pane>, id: Seq<char>) -> Option<Pane>
    decreases panes.len(),
{
    if panes.len() == 0 {
        None
    } else if panes[0].pane_id@ == id {
        Some(panes[0])
    } else {
        pane_of(panes.drop_first(), id)
    }
}

/// The pane that the search starts from, if it is known.
pub open spec fn origin_of(panes: Seq<Pane>, from: Option<Seq<char>>) -> Option<Pane> {
    match from {
        Some(id) => pane_of(panes, id),
        None => None,
    }
}

/// How far a pane is from where the search starts: this pane, the focused pane,
/// the same tab, the same workspace, anything else.
pub open spec fn distance(pane: Pane, origin: Option<Pane>, from: Option<Seq<char>>) -> int {
    if from == Some(pane.pane_id@) {
        0
    } else if pane.focused {
        1
    } else {
        match origin {
            Some(origin) => if pane.tab_id@ == origin.tab_id@ && pane.tab_id@.len() > 0 {
                2
            } else if pane.workspace_id@ == origin.workspace_id@ && pane.workspace_id@.len()
                > 0 {
                3
            } else {
                4
            },
            None => 4,
        }
    }
}

/// The Codex sessions of the panes at one distance, in the order of the panes.
pub open spec fn sessions_at(
    panes: Seq<Pane>,
    origin: Option<Pane>,
    from: Option<Seq<char>>,
    rank: int,
) -> Seq<Seq<char>>
    decreases panes.len(),
{
    if panes.len() == 0 {
        Seq::empty()
    } else {
        let before = sessions_at(panes.drop_last(), origin, from, rank);
        match panes.last().codex() {
            Some(session) => if distance(panes.last(), origin, from) == rank {
                before.push(session)
            } else {
                before
            },
            None => before,
        }
    }
}

/// The Codex sessions of the panes nearer than `rank`, nearest first.
pub open spec fn sessions_within(
    panes: Seq<Pane>,
    origin: Option<Pane>,
    from: Option<Seq<char>>,
    rank: int,
) -> Seq<Seq<char>>
    decreases rank,
{
    if rank <= 0 {
        Seq::empty()
    } else {
        sessions_within(panes, origin, from, rank - 1) + sessions_at(panes, origin, from, rank - 1)
    }
}

/// All Codex sessions, nearest first, each of them once.
pub open spec fn ranked_sessions(panes: Seq<Pane>, from: Option<Seq<char>>) -> Seq<Seq<char>> {
    distinct(sessions_within(panes, origin_of(panes, from), from, 5))
}

/// The first pane with the given id.
pub fn find_pane<'a>(panes: &'a [Pane], id: &str) -> (found: Option<&'a Pane>)
    ensures
        match found {
            Some(pane) => pane_of(panes@, id@) == Some(*pane),
            None => pane_of(panes@, id@) is None,
        },
{
    let mut i: usize = 0;
    assert(panes@.skip(0) == panes@);
    while i < panes.len()
        invariant
            i <= panes@.len(),
            pane_of(panes@, id@) == pane_of(panes@.skip(i as int), id@),
        decreases panes@.len() - i,
    {
        assert(panes@.skip(i as int)[0] == panes@[i as int]);
        assert(panes@.skip(i as int).drop_first() == panes@.skip(i + 1));
        if same_text(panes[i].pane_id.as_str(), id) {
            return Some(&panes[i]);
        }
        i = i + 1;
    }
    None
}

/// How far a pane is from where the search starts.
fn rank(pane: &Pane, origin: Option<&Pane>, from_pane: Option<&str>) -> (rank: u8)
    ensures
        rank == distance(
            *pane,
            match origin {
                Some(origin) => Some(*origin),
                None => None,
            },
            option_view(from_pane),
        ),
        rank < 5,
{
    if is_text(from_pane, pane.pane_id.as_str()) {
        return 0;
    }
    if pane.focused {
        return 1;
    }
    match origin {
        Some(origin) => if same_text(pane.tab_id.as_str(), origin.tab_id.as_str())
            && !pane.tab_id.as_str().is_empty() {
            2
        } else if same_text(pane.workspace_id.as_str(), origin.workspace_id.as_str())
            && !pane.workspace_id.as_str().is_empty() {
            3
        } else {
            4
        },
        None => 4,
    }
}

/// Whether a list of strings holds a text.
pub fn lists(items: &Vec<String>, text: &str) -> (yes: bool)
    ensures
        yes == views(items@).contains(text@),
{
    let mut i: usize = 0;
    while i < items.len()
        invariant
            i <= items@.len(),
            forall|k: int| 0 <= k < i ==> (#[trigger] items@[k])@ != text@,
        decreases items@.len() - i,
    {
        if same_text(items[i].as_str(), text) {
            assert(views(items@)[i as int] == text@);
            return true;
        }
        i = i + 1;
    }
    proof {
        if views(items@).contains(text@) {
            let k = choose|k: int| 0 <= k < items@.len() && views(items@)[k] == text@;
            assert(items@[k]@ == text@);
        }
    }
    false
}

/// Codex session ids, most likely first.
///
/// The ordering walks outwards from wherever the search was started: this pane,
/// then the focused pane, then the same tab, the same workspace, and finally
/// anything else Herdr knows about.
pub fn ranked_session_ids(panes: &[Pane], from_pane: Option<&str>) -> (ids: Vec<String>)
    ensures
        views(ids@) == ranked_sessions(panes@, option_view(from_pane)),
{
    let origin = match from_pane {
        Some(id) => find_pane(panes, id),
        None => None,
    };
    let ghost from = option_view(from_pane);
    let ghost start = origin_of(panes@, from);
    let mut ids: Vec<String> = Vec::new();
    let mut near: u8 = 0;
    assert(views(ids@) == Seq::<Seq<char>>::empty());
    while near < 5
        invariant
            near <= 5,
            from == option_view(from_pane),
            start == (match origin {
                Some(origin) => Some(*origin),
                None => None,
            }),
            views(ids@) == distinct(sessions_within(panes@, start, from, near as int)),
        decreases 5 - near,
    {
        let ghost within = sessions_within(panes@, start, from, near as int);
        let mut i: usize = 0;
        proof {
            assert(panes@.take(0) == Seq::<Pane>::empty());
            assert(within + Seq::<Seq<char>>::empty() == within);
        }
        while i < panes.len()
            invariant
                i <= panes@.len(),
                near < 5,
                from == option_view(from_pane),
                start == (match origin {
                    Some(origin) => Some(*origin),
                    None => None,
                }),
                views(ids@) == distinct(
                    within + sessions_at(panes@.take(i as int), start, from, near as int),
                ),
            decreases panes@.len() - i,
        {
            let pane = &panes[i];
            let ghost done = sessions_at(panes@.take(i as int), start, from, near as int);
            proof {
                assert(panes@.take(i + 1).drop_last() == panes@.take(i as int));
                assert(panes@.take(i + 1).last() == *pane);
            }
            if let Some(session) = pane.codex_session() {
                if rank(pane, origin, from_pane) == near {
                    assert((within + done.push(session@)).drop_last() == within + done);
                    if !lists(&ids, session) {
                        let ghost before = views(ids@);
                        ids.push(session.to_string());
                        assert(views(ids@) == before.push(session@));
                    }
                }
            }
            i = i + 1;
        }
        assert(panes@.take(panes@.len() as int) == panes@);
        near = near + 1;
    }
    ids
}

/// The session of the first pane with the given id.
pub open spec fn pane_session(panes: Seq<Pane>, id: Seq<char>) -> Option<Seq<char>> {
    match pane_of(panes, id) {
        Some(pane) => pane.codex(),
        None => None,
    }
}

/// The session id of a specific pane, for `--pane`.
pub fn session_of(panes: &[Pane], pane_id: &str) -> (session: Option<String>)
    ensures
        string_view(session) == pane_session(panes@, pane_id@),
{
    match find_pane(panes, pane_id) {
        Some(pane) => owned(pane.codex_session()),
        None => None,
    }
}

// Laws

/// No session is listed twice.
pub proof fn law_sessions_are_listed_once(panes: Seq<Pane>, from: Option<Seq<char>>)
    ensures
        ranked_sessions(panes, from).no_duplicates(),
{
    lemma_distinct(sessions_within(panes, origin_of(panes, from), from, 5));
}

/// A session is listed exactly when some pane is running it in Codex.
pub proof fn law_every_session_is_listed(
    panes: Seq<Pane>,
    from: Option<Seq<char>>,
    session: Seq<char>,
)
    ensures
        ranked_sessions(panes, from).contains(session) <==> exists|i: int|
            0 <= i < panes.len() && (#[trigger] panes[i]).codex() == Some(session),
{
    let origin = origin_of(panes, from);
    let all = sessions_within(panes, origin, from, 5);
    lemma_distinct(all);
    lemma_within(panes, origin, from, 5, session);
    assert forall|i: int| 0 <= i < panes.len() implies 0 <= distance(
        #[trigger] panes[i],
        origin,
        from,
    ) < 5 by {}
}

/// Nearer sessions come first: of two listed sessions, the earlier one is run by
/// some pane that is at least as near as every pane that runs the later one.
pub proof fn law_nearer_sessions_come_first(
    panes: Seq<Pane>,
    from: Option<Seq<char>>,
    i: int,
    j: int,
    later: int,
)
    requires
        0 <= i < j < ranked_sessions(panes, from).len(),
        0 <= later < panes.len(),
        panes[later].codex() == Some(ranked_sessions(panes, from)[j]),
    ensures
        exists|earlier: int|
            0 <= earlier < panes.len() && (#[trigger] panes[earlier]).codex() == Some(
                ranked_sessions(panes, from)[i],
            ) && distance(panes[earlier], origin_of(panes, from), from) <= distance(
                panes[later],
                origin_of(panes, from),
                from,
            ),
{
    let origin = origin_of(panes, from);
    let all = sessions_within(panes, origin, from, 5);
    let near = distance(panes[later], origin, from);
    let first = ranked_sessions(panes, from)[i];
    let second = ranked_sessions(panes, from)[j];
    // The later session stands among those within its distance, so the earlier
    // one does too.
    lemma_within(panes, origin, from, near + 1, second);
    lemma_within_prefix(panes, origin, from, near + 1, 5);
    let within = sessions_within(panes, origin, from, near + 1);
    let k = choose|k: int| 0 <= k < within.len() && within[k] == second;
    assert(all[k] == second);
    lemma_distinct_order(all, i, j, k);
    let a = choose|a: int| 0 <= a < k && #[trigger] all[a] == first;
    assert(within[a] == first);
    lemma_within(panes, origin, from, near + 1, first);
}

/// The sessions within a distance are those of the panes within it.
proof fn lemma_within(
    panes: Seq<Pane>,
    origin: Option<Pane>,
    from: Option<Seq<char>>,
    rank: int,
    session: Seq<char>,
)
    requires
        rank >= 0,
    ensures
        sessions_within(panes, origin, from, rank).contains(session) <==> exists|i: int|
            0 <= i < panes.len() && (#[trigger] panes[i]).codex() == Some(session) && 0 <= distance(
                panes[i],
                origin,
                from,
            ) < rank,
    decreases rank,
{
    if rank > 0 {
        lemma_within(panes, origin, from, rank - 1, session);
        lemma_at(panes, origin, from, rank - 1, session);
        let front = sessions_within(panes, origin, from, rank - 1);
        let back = sessions_at(panes, origin, from, rank - 1);
        let all = front + back;
        if front.contains(session) {
            let k = choose|k: int| 0 <= k < front.len() && front[k] == session;
            assert(all[k] == session);
        }
        if back.contains(session) {
            let k = choose|k: int| 0 <= k < back.len() && back[k] == session;
            assert(all[front.len() + k] == session);
        }
        if all.contains(session) {
            let k = choose|k: int| 0 <= k < all.len() && all[k] == session;
            if k < front.len() {
                assert(front[k] == session);
            } else {
                assert(back[k - front.len()] == session);
            }
        }
    }
}

/// The sessions at a distance are those of the panes at it.
proof fn lemma_at(
    panes: Seq<Pane>,
    origin: Option<Pane>,
    from: Option<Seq<char>>,
    rank: int,
    session: Seq<char>,
)
    ensures
        sessions_at(panes, origin, from, rank).contains(session) <==> exists|i: int|
            0 <= i < panes.len() && (#[trigger] panes[i]).codex() == Some(session) && distance(
                panes[i],
                origin,
                from,
            ) == rank,
    decreases panes.len(),
{
    if panes.len() > 0 {
        let init = panes.drop_last();
        lemma_at(init, origin, from, rank, session);
        let before = sessions_at(init, origin, from, rank);
        let after = sessions_at(panes, origin, from, rank);
        if before.contains(session) {
            let k = choose|k: int| 0 <= k < before.len() && before[k] == session;
            assert(after[k] == session);
            let i = choose|i: int|
                0 <= i < init.len() && (#[trigger] init[i]).codex() == Some(session) && distance(
                    init[i],
                    origin,
                    from,
                ) == rank;
            assert(panes[i].codex() == Some(session));
        }
        if panes.last().codex() == Some(session) && distance(panes.last(), origin, from) == rank {
            assert(after[before.len() as int] == session);
            assert(panes[panes.len() - 1].codex() == Some(session));
        }
        if after.contains(session) && !before.contains(session) {
            let k = choose|k: int| 0 <= k < after.len() && after[k] == session;
            if k < before.len() {
                assert(before[k] == session);
            }
        }
        if exists|i: int|
            0 <= i < panes.len() && (#[trigger] panes[i]).codex() == Some(session) && distance(
                panes[i],
                origin,
                from,
            ) == rank {
            let i = choose|i: int|
                0 <= i < panes.len() && (#[trigger] panes[i]).codex() == Some(session) && distance(
                    panes[i],
                    origin,
                    from,
                ) == rank;
            if i < init.len() {
                assert(init[i].codex() == Some(session));
            }
        }
    }
}

proof fn lemma_within_prefix(
    panes: Seq<Pane>,
    origin: Option<Pane>,
    from: Option<Seq<char>>,
    rank: int,
    more: int,
)
    requires
        rank <= more,
    ensures
        sessions_within(panes, origin, from, rank).is_prefix_of(
            sessions_within(panes, origin, from, more),
        ),
    decreases more - rank,
{
    if rank < more {
        lemma_within_prefix(panes, origin, from, rank, more - 1);
    } else {
        let all = sessions_within(panes, origin, from, rank);
        assert(all.is_prefix_of(all));
    }
}

/// Of panes with the same id, the first one counts.
pub proof fn law_a_pane_is_found_by_its_id(panes: Seq<Pane>, k: int, id: Seq<char>)
    requires
        0 <= k < panes.len(),
        panes[k].pane_id@ == id,
        forall|i: int| 0 <= i < k ==> (#[trigger] panes[i]).pane_id@ != id,
    ensures
        pane_of(panes, id) == Some(panes[k]),
    decreases k,
{
    if k > 0 {
        let rest = panes.drop_first();
        assert(panes[0].pane_id@ != id);
        assert forall|i: int| 0 <= i < k - 1 implies (#[trigger] rest[i]).pane_id@ != id by {
            assert(rest[i] == panes[i + 1]);
        }
        law_a_pane_is_found_by_its_id(rest, k - 1, id);
    }
}

/// A session stands before another in the ranking.
pub open spec fn ranked_before(
    panes: Seq<Pane>,
    from: Option<Seq<char>>,
    session: Seq<char>,
    other: Seq<char>,
) -> bool {
    exists|i: int, j: int|
        0 <= i < j < ranked_sessions(panes, from).len() && #[trigger] ranked_sessions(
            panes,
            from,
        )[i] == session && #[trigger] ranked_sessions(panes, from)[j] == other
}

/// A session that some pane runs nearer than every pane that runs another comes before it.
proof fn lemma_nearer_comes_first(
    panes: Seq<Pane>,
    from: Option<Seq<char>>,
    p: int,
    session: Seq<char>,
    other: Seq<char>,
    q: int,
)
    requires
        0 <= p < panes.len(),
        0 <= q < panes.len(),
        panes[p].codex() == Some(session),
        panes[q].codex() == Some(other),
        session != other,
        forall|k: int|
            0 <= k < panes.len() && (#[trigger] panes[k]).codex() == Some(other) ==> distance(
                panes[p],
                origin_of(panes, from),
                from,
            ) < distance(panes[k], origin_of(panes, from), from),
    ensures
        ranked_before(panes, from, session, other),
{
    let ranked = ranked_sessions(panes, from);
    law_every_session_is_listed(panes, from, session);
    law_every_session_is_listed(panes, from, other);
    let i = choose|i: int| 0 <= i < ranked.len() && ranked[i] == session;
    let j = choose|j: int| 0 <= j < ranked.len() && ranked[j] == other;
    if j < i {
        law_nearer_sessions_come_first(panes, from, j, i, p);
        let k = choose|k: int|
            0 <= k < panes.len() && (#[trigger] panes[k]).codex() == Some(ranked[j]) && distance(
                panes[k],
                origin_of(panes, from),
                from,
            ) <= distance(panes[p], origin_of(panes, from), from);
        assert(panes[k].codex() == Some(other));
    }
    assert(ranked[i] == session && ranked[j] == other);
}

/// A pane runs a session exactly when its agent is Codex and the session is recorded.
pub proof fn law_a_pane_runs_codex(pane: Pane, session: Seq<char>)
    ensures
        pane.codex() == Some(session) <==> string_view(pane.agent) == Some("codex"@) && (
        pane.agent_session matches Some(agent) && string_view(agent.value) == Some(session)),
{
}

/// The session of the pane that the search starts from comes before any that other panes
/// run.
pub proof fn law_the_own_pane_comes_first(
    panes: Seq<Pane>,
    id: Seq<char>,
    p: int,
    session: Seq<char>,
    q: int,
    other: Seq<char>,
)
    requires
        0 <= p < panes.len(),
        0 <= q < panes.len(),
        panes[p].codex() == Some(session),
        panes[q].codex() == Some(other),
        session != other,
        panes[p].pane_id@ == id,
        forall|k: int|
            0 <= k < panes.len() && (#[trigger] panes[k]).codex() == Some(other) ==> panes[k].pane_id@
                != id,
    ensures
        ranked_before(panes, Some(id), session, other),
{
    lemma_nearer_comes_first(panes, Some(id), p, session, other, q);
}

/// The session of a focused pane comes before any that only other panes run, unless the
/// search starts from one of them.
pub proof fn law_the_focused_pane_comes_next(
    panes: Seq<Pane>,
    from: Option<Seq<char>>,
    p: int,
    session: Seq<char>,
    q: int,
    other: Seq<char>,
)
    requires
        0 <= p < panes.len(),
        0 <= q < panes.len(),
        panes[p].codex() == Some(session),
        panes[q].codex() == Some(other),
        session != other,
        panes[p].focused,
        forall|k: int|
            0 <= k < panes.len() && (#[trigger] panes[k]).codex() == Some(other)
                ==> !panes[k].focused && from != Some(panes[k].pane_id@),
    ensures
        ranked_before(panes, from, session, other),
{
    lemma_nearer_comes_first(panes, from, p, session, other, q);
}

/// Behind those, a session in the tab that the search starts from comes before the others,
/// and one in the same workspace before those elsewhere.
pub proof fn law_tabs_and_workspaces_come_in_turn(
    panes: Seq<Pane>,
    id: Seq<char>,
    o: int,
    p: int,
    session: Seq<char>,
    q: int,
    other: Seq<char>,
)
    requires
        0 <= o < panes.len(),
        panes[o].pane_id@ == id,
        forall|i: int| 0 <= i < o ==> (#[trigger] panes[i]).pane_id@ != id,
        0 <= p < panes.len(),
        0 <= q < panes.len(),
        panes[p].codex() == Some(session),
        panes[q].codex() == Some(other),
        session != other,
        forall|k: int|
            0 <= k < panes.len() && (#[trigger] panes[k]).codex() == Some(other)
                ==> !panes[k].focused && panes[k].pane_id@ != id,
    ensures
        panes[p].tab_id@ == panes[o].tab_id@ && panes[p].tab_id@.len() > 0 && (forall|k: int|
            0 <= k < panes.len() && (#[trigger] panes[k]).codex() == Some(other) ==> panes[k].tab_id@
                != panes[o].tab_id@) ==> ranked_before(panes, Some(id), session, other),
        panes[p].workspace_id@ == panes[o].workspace_id@ && panes[p].workspace_id@.len() > 0 && (
        forall|k: int|
            0 <= k < panes.len() && (#[trigger] panes[k]).codex() == Some(other) ==> (
            panes[k].tab_id@ != panes[o].tab_id@ || panes[k].tab_id@.len() == 0)
                && panes[k].workspace_id@ != panes[o].workspace_id@) ==> ranked_before(
            panes,
            Some(id),
            session,
            other,
        ),
{
    law_a_pane_is_found_by_its_id(panes, o, id);
    assert(origin_of(panes, Some(id)) == Some(panes[o]));
    if panes[p].tab_id@ == panes[o].tab_id@ && panes[p].tab_id@.len() > 0 && (forall|k: int|
        0 <= k < panes.len() && (#[trigger] panes[k]).codex() == Some(other) ==> panes[k].tab_id@
            != panes[o].tab_id@) {
        lemma_nearer_comes_first(panes, Some(id), p, session, other, q);
    }
    if panes[p].workspace_id@ == panes[o].workspace_id@ && panes[p].workspace_id@.len() > 0 && (
    forall|k: int|
        0 <= k < panes.len() && (#[trigger] panes[k]).codex() == Some(other) ==> (panes[k].tab_id@
            != panes[o].tab_id@ || panes[k].tab_id@.len() == 0) && panes[k].workspace_id@
            != panes[o].workspace_id@) {
        lemma_nearer_comes_first(panes, Some(id), p, session, other, q);
    }
}

/// Sessions of panes that are equally near come in the order of the panes.
pub proof fn law_equally_near_sessions_keep_their_order(
    panes: Seq<Pane>,
    p: int,
    session: Seq<char>,
    q: int,
    other: Seq<char>,
)
    requires
        0 <= p < q < panes.len(),
        panes[p].codex() == Some(session),
        panes[q].codex() == Some(other),
        session != other,
        forall|k: int|
            0 <= k < panes.len() && (#[trigger] panes[k]).codex() == Some(other) ==> k > p,
        forall|k: int| 0 <= k < panes.len() ==> !(#[trigger] panes[k]).focused,
    ensures
        ranked_before(panes, None, session, other),
{
    let front = panes.take(p + 1);
    let ranked = ranked_sessions(panes, None);
    lemma_far_sessions(panes);
    lemma_far_sessions(front);
    let all = sessions_at(panes, None, None, 4);
    let early = sessions_at(front, None, None, 4);
    lemma_at_prefix(panes, p + 1);
    lemma_at(front, None, None, 4, session);
    lemma_at(front, None, None, 4, other);
    assert(front[p].codex() == Some(session));
    assert(!early.contains(other)) by {
        if early.contains(other) {
            let k = choose|k: int|
                0 <= k < front.len() && (#[trigger] front[k]).codex() == Some(other) && distance(
                    front[k],
                    None,
                    None,
                ) == 4;
            assert(panes[k].codex() == Some(other));
        }
    }
    law_every_session_is_listed(panes, None, session);
    law_every_session_is_listed(panes, None, other);
    let i = choose|i: int| 0 <= i < ranked.len() && ranked[i] == session;
    let j = choose|j: int| 0 <= j < ranked.len() && ranked[j] == other;
    if j < i {
        let k = choose|k: int| 0 <= k < early.len() && early[k] == session;
        assert(all[k] == session);
        lemma_distinct_order(all, j, i, k);
        let a = choose|a: int| 0 <= a < k && #[trigger] all[a] == other;
        assert(early[a] == other);
    }
    assert(ranked[i] == session && ranked[j] == other);
}

/// Where nothing is known and nothing has the focus, all panes are equally far.
proof fn lemma_far_sessions(panes: Seq<Pane>)
    requires
        forall|k: int| 0 <= k < panes.len() ==> !(#[trigger] panes[k]).focused,
    ensures
        ranked_sessions(panes, None) == distinct(sessions_at(panes, None, None, 4)),
{
    lemma_nothing_near(panes, 0);
    lemma_nothing_near(panes, 1);
    lemma_nothing_near(panes, 2);
    lemma_nothing_near(panes, 3);
    reveal_with_fuel(sessions_within, 6);
    let none = Seq::<Seq<char>>::empty();
    let far = sessions_at(panes, None, None, 4);
    assert(none + none + none + none + none + far == far);
    assert(sessions_within(panes, None, None, 5) == far);
}

proof fn lemma_nothing_near(panes: Seq<Pane>, rank: int)
    requires
        forall|k: int| 0 <= k < panes.len() ==> !(#[trigger] panes[k]).focused,
        0 <= rank < 4,
    ensures
        sessions_at(panes, None, None, rank) == Seq::<Seq<char>>::empty(),
    decreases panes.len(),
{
    if panes.len() > 0 {
        let init = panes.drop_last();
        assert(!panes[panes.len() - 1].focused);
        assert forall|k: int| 0 <= k < init.len() implies !(#[trigger] init[k]).focused by {
            assert(init[k] == panes[k]);
        }
        lemma_nothing_near(init, rank);
    }
}

proof fn lemma_at_prefix(panes: Seq<Pane>, n: int)
    requires
        0 <= n <= panes.len(),
    ensures
        sessions_at(panes.take(n), None, None, 4).is_prefix_of(sessions_at(panes, None, None, 4)),
    decreases panes.len() - n,
{
    let part = sessions_at(panes.take(n), None, None, 4);
    if n < panes.len() {
        lemma_at_prefix(panes, n + 1);
        assert(panes.take(n + 1).drop_last() == panes.take(n));
        let more = sessions_at(panes.take(n + 1), None, None, 4);
        let all = sessions_at(panes, None, None, 4);
        assert(part.is_prefix_of(more));
        assert(part =~= all.subrange(0, part.len() as int));
    } else {
        assert(panes.take(n) == panes);
        assert(part =~= part.subrange(0, part.len() as int));
    }
}

/// A named pane stands for the session that the first pane with that id runs, and for none
/// where there is no such pane.
pub proof fn law_a_named_pane_stands_for_its_session(panes: Seq<Pane>, k: int, id: Seq<char>)
    requires
        0 <= k <= panes.len(),
        k < panes.len() ==> panes[k].pane_id@ == id,
        forall|i: int| 0 <= i < k ==> (#[trigger] panes[i]).pane_id@ != id,
    ensures
        k < panes.len() ==> pane_session(panes, id) == panes[k].codex(),
        k == panes.len() ==> pane_session(panes, id) is None,
    decreases panes.len(),
{
    if k < panes.len() {
        law_a_pane_is_found_by_its_id(panes, k, id);
    } else if panes.len() > 0 {
        let rest = panes.drop_first();
        assert(panes[0].pane_id@ != id);
        assert forall|i: int| 0 <= i < rest.len() implies (#[trigger] rest[i]).pane_id@ != id by {
            assert(rest[i] == panes[i + 1]);
        }
        law_a_named_pane_stands_for_its_session(rest, k - 1, id);
    }
}

} // verus!
