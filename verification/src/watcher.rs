//! The clipboard watcher as a machine: what it has seen, what it wants to know
//! or do next, and how an answer moves it on.
//!
//! The program around it performs the action that the watcher asks for and hands
//! back what came of it.

use vstd::prelude::*;

use crate::automatic::{
    allowed_terminal, focused_codex_pane, is_allowed_terminal, is_focused_codex_pane,
    FrontmostApplication, WatchOptions,
};
use crate::herdr::Pane;
use crate::text::{same_text, string_view, views};

verus! {

/// What the watcher is doing.
#[derive(Debug)]
pub enum Phase {
    /// About to sleep, if the wrapped command is still there.
    Waking,
    /// Waiting for the next look at the clipboard.
    Sleeping,
    /// About to look at the clipboard, if the wrapped command is still there.
    Woken,
    /// Looking at the clipboard.
    Reading,
    /// Finding out where a new copy was made.
    Locating { selection: String },
    /// Finding out whether the pane of the wrapped command has the focus.
    Focusing { selection: String },
    /// Looking the copy up.
    Restoring { selection: String },
    /// Making sure that the wrapped command is still there.
    Confirming { selection: String, restored: String },
    /// Making sure that nothing newer was copied meanwhile.
    Rereading { selection: String, restored: String },
    /// Replacing the copy.
    Writing { selection: String, restored: String },
    /// The wrapped command is gone.
    Stopped,
}

/// What a phase is.
pub enum PhaseView {
    Waking,
    Sleeping,
    Woken,
    Reading,
    Locating { selection: Seq<char> },
    Focusing { selection: Seq<char> },
    Restoring { selection: Seq<char> },
    Confirming { selection: Seq<char>, restored: Seq<char> },
    Rereading { selection: Seq<char>, restored: Seq<char> },
    Writing { selection: Seq<char>, restored: Seq<char> },
    Stopped,
}

impl View for Phase {
    type V = PhaseView;

    open spec fn view(&self) -> PhaseView {
        match *self {
            Phase::Waking => PhaseView::Waking,
            Phase::Sleeping => PhaseView::Sleeping,
            Phase::Woken => PhaseView::Woken,
            Phase::Reading => PhaseView::Reading,
            Phase::Locating { selection } => PhaseView::Locating { selection: selection@ },
            Phase::Focusing { selection } => PhaseView::Focusing { selection: selection@ },
            Phase::Restoring { selection } => PhaseView::Restoring { selection: selection@ },
            Phase::Confirming { selection, restored } => PhaseView::Confirming {
                selection: selection@,
                restored: restored@,
            },
            Phase::Rereading { selection, restored } => PhaseView::Rereading {
                selection: selection@,
                restored: restored@,
            },
            Phase::Writing { selection, restored } => PhaseView::Writing {
                selection: selection@,
                restored: restored@,
            },
            Phase::Stopped => PhaseView::Stopped,
        }
    }
}

/// What came of an action.
#[derive(Debug)]
pub enum Event {
    /// Whether the wrapped command is still there.
    Parent(bool),
    /// The pause is over.
    Slept,
    /// The text on the clipboard. There is none if it holds something else, such
    /// as an image.
    Clipboard(Option<String>),
    /// The application in front, if it could be identified.
    Frontmost(Option<FrontmostApplication>),
    /// The panes that Herdr lists.
    Panes(Vec<Pane>),
    /// The text that the copy was restored to, if it was found.
    Restored(Option<String>),
    /// Whether the clipboard took the text.
    Written(bool),
}

/// What an event is.
pub enum EventView {
    Parent(bool),
    Slept,
    Clipboard(Option<Seq<char>>),
    Frontmost(Option<FrontmostApplication>),
    Panes(Seq<Pane>),
    Restored(Option<Seq<char>>),
    Written(bool),
}

impl View for Event {
    type V = EventView;

    open spec fn view(&self) -> EventView {
        match *self {
            Event::Parent(alive) => EventView::Parent(alive),
            Event::Slept => EventView::Slept,
            Event::Clipboard(text) => EventView::Clipboard(string_view(text)),
            Event::Frontmost(app) => EventView::Frontmost(app),
            Event::Panes(panes) => EventView::Panes(panes@),
            Event::Restored(text) => EventView::Restored(string_view(text)),
            Event::Written(done) => EventView::Written(done),
        }
    }
}

/// What the watcher asks the program around it to do.
#[derive(Debug)]
pub enum Action<'a> {
    /// See whether the wrapped command is still there.
    AskParent,
    /// Pause for the polling interval.
    Sleep,
    /// Read the text on the clipboard.
    ReadClipboard,
    /// Find out which application is in front.
    AskFrontmost,
    /// List the panes.
    AskPanes,
    /// Look a selection up in the transcripts.
    Restore(&'a str),
    /// Put a text on the clipboard.
    Write(&'a str),
    /// Nothing more.
    Stop,
}

/// What an action is.
pub enum ActionView {
    AskParent,
    Sleep,
    ReadClipboard,
    AskFrontmost,
    AskPanes,
    Restore(Seq<char>),
    Write(Seq<char>),
    Stop,
}

/// What an action is.
pub open spec fn action_view(action: Action<'_>) -> ActionView {
    match action {
        Action::AskParent => ActionView::AskParent,
        Action::Sleep => ActionView::Sleep,
        Action::ReadClipboard => ActionView::ReadClipboard,
        Action::AskFrontmost => ActionView::AskFrontmost,
        Action::AskPanes => ActionView::AskPanes,
        Action::Restore(selection) => ActionView::Restore(selection@),
        Action::Write(text) => ActionView::Write(text@),
        Action::Stop => ActionView::Stop,
    }
}

/// What a phase asks for.
pub open spec fn wanted(phase: PhaseView) -> ActionView {
    match phase {
        PhaseView::Waking => ActionView::AskParent,
        PhaseView::Sleeping => ActionView::Sleep,
        PhaseView::Woken => ActionView::AskParent,
        PhaseView::Reading => ActionView::ReadClipboard,
        PhaseView::Locating { .. } => ActionView::AskFrontmost,
        PhaseView::Focusing { .. } => ActionView::AskPanes,
        PhaseView::Restoring { selection } => ActionView::Restore(selection),
        PhaseView::Confirming { .. } => ActionView::AskParent,
        PhaseView::Rereading { .. } => ActionView::ReadClipboard,
        PhaseView::Writing { restored, .. } => ActionView::Write(restored),
        PhaseView::Stopped => ActionView::Stop,
    }
}

/// What the watcher has seen and is doing.
pub struct WatchState {
    /// The text on the clipboard when it was last looked at.
    pub last_seen: Option<Seq<char>>,
    pub phase: PhaseView,
}

/// How the watcher moves on. An answer to something that was not asked changes
/// nothing.
pub open spec fn next(
    filters: Seq<Seq<char>>,
    pane: Option<Seq<char>>,
    state: WatchState,
    event: EventView,
) -> WatchState {
    let idle = WatchState { phase: PhaseView::Waking, ..state };
    match (state.phase, event) {
        (PhaseView::Waking, EventView::Parent(alive)) => WatchState {
            phase: if alive {
                PhaseView::Sleeping
            } else {
                PhaseView::Stopped
            },
            ..state
        },
        (PhaseView::Sleeping, EventView::Slept) => WatchState { phase: PhaseView::Woken, ..state },
        (PhaseView::Woken, EventView::Parent(alive)) => WatchState {
            phase: if alive {
                PhaseView::Reading
            } else {
                PhaseView::Stopped
            },
            ..state
        },
        // Every text change is recorded before it is filtered. A copy made in a
        // browser and ignored must not be processed once the user is back in the
        // terminal.
        (PhaseView::Reading, EventView::Clipboard(text)) => match text {
            Some(selection) => if state.last_seen == text {
                idle
            } else {
                WatchState { last_seen: text, phase: PhaseView::Locating { selection } }
            },
            None => idle,
        },
        (PhaseView::Locating { selection }, EventView::Frontmost(app)) => match app {
            Some(app) => if !allowed_terminal(app, filters) {
                idle
            } else if pane is Some {
                WatchState { phase: PhaseView::Focusing { selection }, ..state }
            } else {
                WatchState { phase: PhaseView::Restoring { selection }, ..state }
            },
            None => idle,
        },
        (PhaseView::Focusing { selection }, EventView::Panes(panes)) => match pane {
            Some(id) => if focused_codex_pane(panes, id) {
                WatchState { phase: PhaseView::Restoring { selection }, ..state }
            } else {
                idle
            },
            None => idle,
        },
        (PhaseView::Restoring { selection }, EventView::Restored(text)) => match text {
            Some(restored) => if restored == selection {
                idle
            } else {
                WatchState { phase: PhaseView::Confirming { selection, restored }, ..state }
            },
            None => idle,
        },
        (PhaseView::Confirming { selection, restored }, EventView::Parent(alive)) => if alive {
            WatchState { phase: PhaseView::Rereading { selection, restored }, ..state }
        } else {
            idle
        },
        // Matching can take long enough for another copy to happen. A newer
        // clipboard value is never replaced with the result of an older one.
        (PhaseView::Rereading { selection, restored }, EventView::Clipboard(text)) => if text
            == Some(selection) {
            WatchState { phase: PhaseView::Writing { selection, restored }, ..state }
        } else {
            idle
        },
        (PhaseView::Writing { restored, .. }, EventView::Written(done)) => if done {
            WatchState { last_seen: Some(restored), phase: PhaseView::Waking }
        } else {
            idle
        },
        _ => state,
    }
}

/// A clipboard watcher.
#[derive(Debug)]
pub struct Watcher {
    options: WatchOptions,
    last_seen: Option<String>,
    phase: Phase,
}

/// Start to watch. What is on the clipboard at that time counts as seen.
pub fn watch(options: WatchOptions, clipboard: Option<String>) -> (watcher: Watcher)
    ensures
        watcher.filters() == views(options.terminal_apps@),
        watcher.pane() == string_view(options.pane),
        watcher.state() == (WatchState {
            last_seen: string_view(clipboard),
            phase: PhaseView::Waking,
        }),
{
    Watcher { options, last_seen: clipboard, phase: Phase::Waking }
}

impl Watcher {
    /// The terminal applications that the watcher was started with.
    pub closed spec fn filters(&self) -> Seq<Seq<char>> {
        views(self.options.terminal_apps@)
    }

    /// The pane that the watcher was started with.
    pub closed spec fn pane(&self) -> Option<Seq<char>> {
        string_view(self.options.pane)
    }

    /// What the watcher has seen and is doing.
    pub closed spec fn state(&self) -> WatchState {
        WatchState { last_seen: string_view(self.last_seen), phase: self.phase@ }
    }

    /// What the watcher asks for next.
    pub fn action(&self) -> (action: Action<'_>)
        ensures
            action_view(action) == wanted(self.state().phase),
    {
        match &self.phase {
            Phase::Waking => Action::AskParent,
            Phase::Sleeping => Action::Sleep,
            Phase::Woken => Action::AskParent,
            Phase::Reading => Action::ReadClipboard,
            Phase::Locating { .. } => Action::AskFrontmost,
            Phase::Focusing { .. } => Action::AskPanes,
            Phase::Restoring { selection } => Action::Restore(selection.as_str()),
            Phase::Confirming { .. } => Action::AskParent,
            Phase::Rereading { .. } => Action::ReadClipboard,
            Phase::Writing { restored, .. } => Action::Write(restored.as_str()),
            Phase::Stopped => Action::Stop,
        }
    }

    /// Move on with what came of the action.
    pub fn advance(self, event: Event) -> (watcher: Self)
        ensures
            watcher.filters() == self.filters(),
            watcher.pane() == self.pane(),
            watcher.state() == next(self.filters(), self.pane(), self.state(), event@),
    {
        let Watcher { options, last_seen, phase } = self;
        match (phase, event) {
            (Phase::Waking, Event::Parent(alive)) => {
                let phase = if alive {
                    Phase::Sleeping
                } else {
                    Phase::Stopped
                };
                Watcher { options, last_seen, phase }
            },
            (Phase::Sleeping, Event::Slept) => Watcher { options, last_seen, phase: Phase::Woken },
            (Phase::Woken, Event::Parent(alive)) => {
                let phase = if alive {
                    Phase::Reading
                } else {
                    Phase::Stopped
                };
                Watcher { options, last_seen, phase }
            },
            (Phase::Reading, Event::Clipboard(text)) => match text {
                Some(selection) => {
                    let known = match &last_seen {
                        Some(seen) => same_text(seen.as_str(), selection.as_str()),
                        None => false,
                    };
                    if known {
                        Watcher { options, last_seen, phase: Phase::Waking }
                    } else {
                        let seen = selection.clone();
                        Watcher {
                            options,
                            last_seen: Some(seen),
                            phase: Phase::Locating { selection },
                        }
                    }
                },
                None => Watcher { options, last_seen, phase: Phase::Waking },
            },
            (Phase::Locating { selection }, Event::Frontmost(app)) => {
                // Fail closed when the application cannot be identified.
                let allowed = match &app {
                    Some(app) => is_allowed_terminal(app, options.terminal_apps.as_slice()),
                    None => false,
                };
                let phase = if !allowed {
                    Phase::Waking
                } else if options.pane.is_some() {
                    Phase::Focusing { selection }
                } else {
                    Phase::Restoring { selection }
                };
                Watcher { options, last_seen, phase }
            },
            (Phase::Focusing { selection }, Event::Panes(panes)) => {
                let focused = match &options.pane {
                    Some(id) => is_focused_codex_pane(panes.as_slice(), id.as_str()),
                    None => false,
                };
                let phase = if focused {
                    Phase::Restoring { selection }
                } else {
                    Phase::Waking
                };
                Watcher { options, last_seen, phase }
            },
            (Phase::Restoring { selection }, Event::Restored(text)) => {
                let phase = match text {
                    Some(restored) => if same_text(restored.as_str(), selection.as_str()) {
                        Phase::Waking
                    } else {
                        Phase::Confirming { selection, restored }
                    },
                    None => Phase::Waking,
                };
                Watcher { options, last_seen, phase }
            },
            (Phase::Confirming { selection, restored }, Event::Parent(alive)) => {
                let phase = if alive {
                    Phase::Rereading { selection, restored }
                } else {
                    Phase::Waking
                };
                Watcher { options, last_seen, phase }
            },
            (Phase::Rereading { selection, restored }, Event::Clipboard(text)) => {
                let unchanged = match &text {
                    Some(text) => same_text(text.as_str(), selection.as_str()),
                    None => false,
                };
                let phase = if unchanged {
                    Phase::Writing { selection, restored }
                } else {
                    Phase::Waking
                };
                Watcher { options, last_seen, phase }
            },
            (Phase::Writing { restored, .. }, Event::Written(done)) => {
                if done {
                    Watcher { options, last_seen: Some(restored), phase: Phase::Waking }
                } else {
                    Watcher { options, last_seen, phase: Phase::Waking }
                }
            },
            (phase, _) => Watcher { options, last_seen, phase },
        }
    }
}

// Laws

/// A text is written only once it was confirmed, at that moment, that the
/// clipboard still holds the selection it was restored from; before that, that
/// the wrapped command is still there; and before that, a restoration returned
/// it. It never equals the selection.
pub proof fn law_only_a_confirmed_restoration_is_written(
    filters: Seq<Seq<char>>,
    pane: Option<Seq<char>>,
    state: WatchState,
    event: EventView,
    selection: Seq<char>,
    restored: Seq<char>,
)
    ensures
        next(filters, pane, state, event).phase == (PhaseView::Writing { selection, restored })
            && state.phase != (PhaseView::Writing { selection, restored }) ==> state.phase == (
        PhaseView::Rereading { selection, restored }) && event == EventView::Clipboard(
            Some(selection),
        ),
        next(filters, pane, state, event).phase == (PhaseView::Rereading { selection, restored })
            && state.phase != (PhaseView::Rereading { selection, restored }) ==> state.phase == (
        PhaseView::Confirming { selection, restored }) && event == EventView::Parent(true),
        next(filters, pane, state, event).phase == (PhaseView::Confirming { selection, restored })
            && state.phase != (PhaseView::Confirming { selection, restored }) ==> state.phase == (
        PhaseView::Restoring { selection }) && event == EventView::Restored(Some(restored))
            && restored != selection,
{
}

/// An event that names an allowed terminal as the application in front.
pub open spec fn names_allowed_terminal(event: EventView, filters: Seq<Seq<char>>) -> bool {
    event matches EventView::Frontmost(Some(app)) && allowed_terminal(app, filters)
}

/// An event that lists a pane as focused and running Codex.
pub open spec fn names_focused_pane(event: EventView, id: Seq<char>) -> bool {
    event matches EventView::Panes(panes) && focused_codex_pane(panes, id)
}

/// A copy is looked up only if it was made in an allowed terminal, and, where a
/// pane is known, that pane has the focus and runs Codex.
pub proof fn law_only_a_terminal_copy_is_looked_up(
    filters: Seq<Seq<char>>,
    pane: Option<Seq<char>>,
    state: WatchState,
    event: EventView,
    selection: Seq<char>,
)
    ensures
        next(filters, pane, state, event).phase == (PhaseView::Restoring { selection })
            && state.phase != (PhaseView::Restoring { selection }) ==> match pane {
            Some(id) => state.phase == (PhaseView::Focusing { selection }) && names_focused_pane(
                event,
                id,
            ),
            None => state.phase == (PhaseView::Locating { selection }) && names_allowed_terminal(
                event,
                filters,
            ),
        },
        next(filters, pane, state, event).phase == (PhaseView::Focusing { selection })
            && state.phase != (PhaseView::Focusing { selection }) ==> state.phase == (
        PhaseView::Locating { selection }) && names_allowed_terminal(event, filters),
        next(filters, pane, state, event).phase == (PhaseView::Locating { selection })
            && state.phase != (PhaseView::Locating { selection }) ==> state.phase
            == PhaseView::Reading && event == EventView::Clipboard(Some(selection))
            && state.last_seen != Some(selection),
{
}

/// The selection that a phase is about.
pub open spec fn selection_of(phase: PhaseView) -> Option<Seq<char>> {
    match phase {
        PhaseView::Locating { selection } => Some(selection),
        PhaseView::Focusing { selection } => Some(selection),
        PhaseView::Restoring { selection } => Some(selection),
        PhaseView::Confirming { selection, .. } => Some(selection),
        PhaseView::Rereading { selection, .. } => Some(selection),
        PhaseView::Writing { selection, .. } => Some(selection),
        _ => None,
    }
}

/// The states that a watcher can be in after some events.
pub open spec fn after_events(
    filters: Seq<Seq<char>>,
    pane: Option<Seq<char>>,
    clipboard: Option<Seq<char>>,
    events: Seq<EventView>,
) -> WatchState
    decreases events.len(),
{
    if events.len() == 0 {
        WatchState { last_seen: clipboard, phase: PhaseView::Waking }
    } else {
        next(
            filters,
            pane,
            after_events(filters, pane, clipboard, events.drop_last()),
            events.last(),
        )
    }
}

/// Whatever happens, a copy that is being processed has been recorded as seen.
pub proof fn law_a_copy_being_processed_was_seen(
    filters: Seq<Seq<char>>,
    pane: Option<Seq<char>>,
    clipboard: Option<Seq<char>>,
    events: Seq<EventView>,
)
    ensures
        ({
            let state = after_events(filters, pane, clipboard, events);
            selection_of(state.phase) matches Some(selection) ==> state.last_seen == Some(selection)
        }),
    decreases events.len(),
{
    if events.len() > 0 {
        law_a_copy_being_processed_was_seen(filters, pane, clipboard, events.drop_last());
    }
}

/// How the watcher moves on with several answers in a row.
pub open spec fn moved(
    filters: Seq<Seq<char>>,
    pane: Option<Seq<char>>,
    state: WatchState,
    events: Seq<EventView>,
) -> WatchState
    decreases events.len(),
{
    if events.len() == 0 {
        state
    } else {
        moved(filters, pane, next(filters, pane, state, events[0]), events.drop_first())
    }
}

/// A copy made in another application stays recorded as seen, and when the
/// clipboard is looked at again it is not processed, whichever application is in
/// front by then: the watcher goes round without asking.
pub proof fn law_an_ignored_copy_is_not_processed_later(
    filters: Seq<Seq<char>>,
    pane: Option<Seq<char>>,
    state: WatchState,
    app: Option<FrontmostApplication>,
    selection: Seq<char>,
)
    requires
        state.phase == (PhaseView::Locating { selection }),
        state.last_seen == Some(selection),
        !names_allowed_terminal(EventView::Frontmost(app), filters),
    ensures
        next(filters, pane, state, EventView::Frontmost(app)) == (WatchState {
            last_seen: Some(selection),
            phase: PhaseView::Waking,
        }),
        moved(
            filters,
            pane,
            next(filters, pane, state, EventView::Frontmost(app)),
            seq![
                EventView::Parent(true),
                EventView::Slept,
                EventView::Parent(true),
                EventView::Clipboard(Some(selection)),
            ],
        ) == next(filters, pane, state, EventView::Frontmost(app)),
{
    reveal_with_fuel(moved, 5);
    let round = seq![
        EventView::Parent(true),
        EventView::Slept,
        EventView::Parent(true),
        EventView::Clipboard(Some(selection)),
    ];
    assert(round.drop_first().drop_first().drop_first().drop_first() == Seq::<EventView>::empty());
}

/// What the watcher wrote counts as seen, so it is not taken for a new copy.
pub proof fn law_a_written_text_counts_as_seen(
    filters: Seq<Seq<char>>,
    pane: Option<Seq<char>>,
    state: WatchState,
    selection: Seq<char>,
    restored: Seq<char>,
)
    requires
        state.phase == (PhaseView::Writing { selection, restored }),
    ensures
        next(filters, pane, state, EventView::Written(true)) == (WatchState {
            last_seen: Some(restored),
            phase: PhaseView::Waking,
        }),
{
}

/// What counts as seen changes in two cases only: a new copy is read, or a
/// restored text is written.
pub proof fn law_what_was_seen_changes_with_copies_and_writes_only(
    filters: Seq<Seq<char>>,
    pane: Option<Seq<char>>,
    state: WatchState,
    event: EventView,
)
    requires
        next(filters, pane, state, event).last_seen != state.last_seen,
    ensures
        ({
            let seen = next(filters, pane, state, event).last_seen;
            ||| state.phase == PhaseView::Reading && event == EventView::Clipboard(seen)
            ||| event == EventView::Written(true) && seen is Some && wanted(state.phase)
                == ActionView::Write(seen->0)
        }),
{
}

/// The watcher stops only when the wrapped command is gone, and then for good.
pub proof fn law_the_watcher_stops_with_the_command(
    filters: Seq<Seq<char>>,
    pane: Option<Seq<char>>,
    state: WatchState,
    event: EventView,
)
    ensures
        next(filters, pane, state, event).phase == PhaseView::Stopped && state.phase
            != PhaseView::Stopped ==> event == EventView::Parent(false),
        state.phase == PhaseView::Stopped ==> next(filters, pane, state, event) == state,
        (state.phase == PhaseView::Waking || state.phase == PhaseView::Woken) && event
            == EventView::Parent(false) ==> next(filters, pane, state, event).phase
            == PhaseView::Stopped,
{
}

/// Before event `end`, the text was read from the clipboard.
pub open spec fn was_read(events: Seq<EventView>, end: int, selection: Seq<char>) -> bool {
    exists|i: int|
        0 <= i < end && #[trigger] events[i] == EventView::Clipboard(Some(selection))
}

/// Before event `end`, the text was read from the clipboard, and behind that an
/// allowed terminal was in front.
pub open spec fn was_located(
    filters: Seq<Seq<char>>,
    events: Seq<EventView>,
    end: int,
    selection: Seq<char>,
) -> bool {
    exists|i: int|
        0 <= i < end && was_read(events, i, selection) && names_allowed_terminal(
            #[trigger] events[i],
            filters,
        )
}

/// Before event `end`, the text was read from the clipboard, behind that an allowed
/// terminal was in front, and behind that, where a pane is known, it had the focus
/// and ran Codex.
pub open spec fn was_accepted(
    filters: Seq<Seq<char>>,
    pane: Option<Seq<char>>,
    events: Seq<EventView>,
    end: int,
    selection: Seq<char>,
) -> bool {
    match pane {
        Some(id) => exists|i: int|
            0 <= i < end && was_located(filters, events, i, selection) && names_focused_pane(
                #[trigger] events[i],
                id,
            ),
        None => was_located(filters, events, end, selection),
    }
}

/// Before event `end`, the text was accepted, and behind that a restoration
/// returned another text for it.
pub open spec fn was_restored(
    filters: Seq<Seq<char>>,
    pane: Option<Seq<char>>,
    events: Seq<EventView>,
    end: int,
    selection: Seq<char>,
    restored: Seq<char>,
) -> bool {
    restored != selection && exists|i: int|
        0 <= i < end && was_accepted(filters, pane, events, i, selection) && #[trigger] events[i]
            == EventView::Restored(Some(restored))
}

/// Before event `end`, a restoration returned another text, and behind that the
/// wrapped command was still there.
pub open spec fn was_confirmed(
    filters: Seq<Seq<char>>,
    pane: Option<Seq<char>>,
    events: Seq<EventView>,
    end: int,
    selection: Seq<char>,
    restored: Seq<char>,
) -> bool {
    exists|i: int|
        0 <= i < end && was_restored(filters, pane, events, i, selection, restored)
            && #[trigger] events[i] == EventView::Parent(true)
}

/// Before event `end`, all of that, and behind it the clipboard still held the
/// selection.
pub open spec fn was_reread(
    filters: Seq<Seq<char>>,
    pane: Option<Seq<char>>,
    events: Seq<EventView>,
    end: int,
    selection: Seq<char>,
    restored: Seq<char>,
) -> bool {
    exists|i: int|
        0 <= i < end && was_confirmed(filters, pane, events, i, selection, restored)
            && #[trigger] events[i] == EventView::Clipboard(Some(selection))
}

/// What a phase says about the events that led to it.
pub open spec fn earned(
    filters: Seq<Seq<char>>,
    pane: Option<Seq<char>>,
    events: Seq<EventView>,
    end: int,
    phase: PhaseView,
) -> bool {
    match phase {
        PhaseView::Locating { selection } => was_read(events, end, selection),
        PhaseView::Focusing { selection } => was_located(filters, events, end, selection),
        PhaseView::Restoring { selection } => was_accepted(filters, pane, events, end, selection),
        PhaseView::Confirming { selection, restored } => was_restored(
            filters,
            pane,
            events,
            end,
            selection,
            restored,
        ),
        PhaseView::Rereading { selection, restored } => was_confirmed(
            filters,
            pane,
            events,
            end,
            selection,
            restored,
        ),
        PhaseView::Writing { selection, restored } => was_reread(
            filters,
            pane,
            events,
            end,
            selection,
            restored,
        ),
        _ => true,
    }
}

/// Every write was earned. Whatever the events, the watcher asks for a text to be
/// written only if, in this order: the clipboard held another text, an allowed
/// terminal was in front, the pane had the focus and ran Codex where one is known,
/// a restoration returned the text for it, the wrapped command was still there,
/// and the clipboard still held what was copied.
pub proof fn law_every_write_was_earned(
    filters: Seq<Seq<char>>,
    pane: Option<Seq<char>>,
    clipboard: Option<Seq<char>>,
    events: Seq<EventView>,
)
    ensures
        earned(
            filters,
            pane,
            events,
            events.len() as int,
            after_events(filters, pane, clipboard, events).phase,
        ),
    decreases events.len(),
{
    if events.len() > 0 {
        let init = events.drop_last();
        let end = init.len() as int;
        let before = after_events(filters, pane, clipboard, init).phase;
        law_every_write_was_earned(filters, pane, clipboard, init);
        lemma_earned_stays(filters, pane, init, events, end, end, before);
        lemma_earned_stays(filters, pane, init, events, end, end + 1, before);
        assert(events[end] == events.last());
    }
}

/// What was earned stays earned when more happens.
proof fn lemma_earned_stays(
    filters: Seq<Seq<char>>,
    pane: Option<Seq<char>>,
    events: Seq<EventView>,
    more: Seq<EventView>,
    end: int,
    later: int,
    phase: PhaseView,
)
    requires
        0 <= end <= later,
        end <= events.len() <= more.len(),
        forall|i: int| 0 <= i < events.len() ==> #[trigger] events[i] == more[i],
        earned(filters, pane, events, end, phase),
    ensures
        earned(filters, pane, more, later, phase),
    decreases end, later,
{
    match phase {
        PhaseView::Locating { selection } => {
            let i = choose|i: int|
                0 <= i < end && #[trigger] events[i] == EventView::Clipboard(Some(selection));
            assert(more[i] == EventView::Clipboard(Some(selection)));
        },
        PhaseView::Focusing { selection } => {
            let i = choose|i: int|
                0 <= i < end && was_read(events, i, selection) && names_allowed_terminal(
                    #[trigger] events[i],
                    filters,
                );
            lemma_earned_stays(
                filters,
                pane,
                events,
                more,
                i,
                i,
                PhaseView::Locating { selection },
            );
            assert(names_allowed_terminal(more[i], filters));
        },
        PhaseView::Restoring { selection } => {
            if let Some(id) = pane {
                let i = choose|i: int|
                    0 <= i < end && was_located(filters, events, i, selection)
                        && names_focused_pane(#[trigger] events[i], id);
                lemma_earned_stays(
                    filters,
                    pane,
                    events,
                    more,
                    i,
                    i,
                    PhaseView::Focusing { selection },
                );
                assert(names_focused_pane(more[i], id));
            } else {
                let i = choose|i: int|
                    0 <= i < end && was_read(events, i, selection) && names_allowed_terminal(
                        #[trigger] events[i],
                        filters,
                    );
                lemma_earned_stays(
                    filters,
                    pane,
                    events,
                    more,
                    i,
                    i,
                    PhaseView::Locating { selection },
                );
                assert(names_allowed_terminal(more[i], filters));
            }
        },
        PhaseView::Confirming { selection, restored } => {
            let i = choose|i: int|
                0 <= i < end && was_accepted(filters, pane, events, i, selection)
                    && #[trigger] events[i] == EventView::Restored(Some(restored));
            lemma_earned_stays(
                filters,
                pane,
                events,
                more,
                i,
                i,
                PhaseView::Restoring { selection },
            );
            assert(more[i] == EventView::Restored(Some(restored)));
        },
        PhaseView::Rereading { selection, restored } => {
            let i = choose|i: int|
                0 <= i < end && was_restored(filters, pane, events, i, selection, restored)
                    && #[trigger] events[i] == EventView::Parent(true);
            lemma_earned_stays(
                filters,
                pane,
                events,
                more,
                i,
                i,
                PhaseView::Confirming { selection, restored },
            );
            assert(more[i] == EventView::Parent(true));
        },
        PhaseView::Writing { selection, restored } => {
            let i = choose|i: int|
                0 <= i < end && was_confirmed(filters, pane, events, i, selection, restored)
                    && #[trigger] events[i] == EventView::Clipboard(Some(selection));
            lemma_earned_stays(
                filters,
                pane,
                events,
                more,
                i,
                i,
                PhaseView::Rereading { selection, restored },
            );
            assert(more[i] == EventView::Clipboard(Some(selection)));
        },
        _ => {},
    }
}

/// Every restoration that differs from the copy is written, whatever the two texts are:
/// with the wrapped command still there and the clipboard unchanged, the watcher asks for
/// exactly the restored text to be written, and counts it as seen once it was.
pub proof fn law_a_differing_restoration_is_written(
    filters: Seq<Seq<char>>,
    pane: Option<Seq<char>>,
    state: WatchState,
    selection: Seq<char>,
    restored: Seq<char>,
)
    requires
        state.phase == (PhaseView::Restoring { selection }),
        restored != selection,
    ensures
        ({
            let found = next(filters, pane, state, EventView::Restored(Some(restored)));
            let alive = next(filters, pane, found, EventView::Parent(true));
            let same = next(filters, pane, alive, EventView::Clipboard(Some(selection)));
            let done = next(filters, pane, same, EventView::Written(true));
            &&& wanted(state.phase) == ActionView::Restore(selection)
            &&& wanted(found.phase) == ActionView::AskParent
            &&& wanted(alive.phase) == ActionView::ReadClipboard
            &&& same == (WatchState {
                last_seen: state.last_seen,
                phase: PhaseView::Writing { selection, restored },
            })
            &&& wanted(same.phase) == ActionView::Write(restored)
            &&& done == (WatchState { last_seen: Some(restored), phase: PhaseView::Waking })
        }),
{
}

/// Every new text on the clipboard is looked up, whatever it is, when an allowed terminal
/// is in front and, where a pane is known, that pane has the focus and runs Codex.
pub proof fn law_a_new_copy_is_looked_up(
    filters: Seq<Seq<char>>,
    pane: Option<Seq<char>>,
    state: WatchState,
    copy: Seq<char>,
    app: FrontmostApplication,
    panes: Seq<Pane>,
)
    requires
        state.phase == PhaseView::Waking,
        state.last_seen != Some(copy),
        allowed_terminal(app, filters),
        pane matches Some(id) ==> focused_codex_pane(panes, id),
    ensures
        ({
            let sleeping = next(filters, pane, state, EventView::Parent(true));
            let woken = next(filters, pane, sleeping, EventView::Slept);
            let reading = next(filters, pane, woken, EventView::Parent(true));
            let read = next(filters, pane, reading, EventView::Clipboard(Some(copy)));
            let located = next(filters, pane, read, EventView::Frontmost(Some(app)));
            let focused = next(filters, pane, located, EventView::Panes(panes));
            &&& wanted(state.phase) == ActionView::AskParent
            &&& wanted(sleeping.phase) == ActionView::Sleep
            &&& wanted(woken.phase) == ActionView::AskParent
            &&& wanted(reading.phase) == ActionView::ReadClipboard
            &&& wanted(read.phase) == ActionView::AskFrontmost
            &&& read.last_seen == Some(copy)
            &&& pane is None ==> located == (WatchState {
                last_seen: Some(copy),
                phase: PhaseView::Restoring { selection: copy },
            })
            &&& pane is Some ==> wanted(located.phase) == ActionView::AskPanes
            &&& pane is Some ==> focused == (WatchState {
                last_seen: Some(copy),
                phase: PhaseView::Restoring { selection: copy },
            })
        }),
{
}

/// A copy that cannot or need not be replaced ends the round and nothing else: the watcher
/// waits for the next one, and what it has seen stays seen.
pub proof fn law_a_round_ends_where_nothing_is_to_do(
    filters: Seq<Seq<char>>,
    pane: Option<Seq<char>>,
    state: WatchState,
    selection: Seq<char>,
    restored: Seq<char>,
    text: Option<Seq<char>>,
)
    ensures
        ({
            let idle = WatchState { phase: PhaseView::Waking, ..state };
            let step = |event: EventView| next(filters, pane, state, event);
            &&& state.phase == PhaseView::Reading && (text is None || text == state.last_seen)
                ==> step(EventView::Clipboard(text)) == idle
            &&& state.phase == (PhaseView::Locating { selection }) ==> step(
                EventView::Frontmost(None),
            ) == idle
            &&& state.phase == (PhaseView::Restoring { selection }) ==> step(
                EventView::Restored(None),
            ) == idle && step(EventView::Restored(Some(selection))) == idle
            &&& state.phase == (PhaseView::Confirming { selection, restored }) ==> step(
                EventView::Parent(false),
            ) == idle
            &&& state.phase == (PhaseView::Rereading { selection, restored }) && text != Some(
                selection,
            ) ==> step(EventView::Clipboard(text)) == idle
            &&& state.phase == (PhaseView::Writing { selection, restored }) ==> step(
                EventView::Written(false),
            ) == idle
        }),
{
}

/// Only the answer to what was asked moves the watcher on.
pub proof fn law_other_answers_change_nothing(
    filters: Seq<Seq<char>>,
    pane: Option<Seq<char>>,
    state: WatchState,
    event: EventView,
)
    ensures
        (match wanted(state.phase) {
            ActionView::AskParent => !(event is Parent),
            ActionView::Sleep => !(event is Slept),
            ActionView::ReadClipboard => !(event is Clipboard),
            ActionView::AskFrontmost => !(event is Frontmost),
            ActionView::AskPanes => !(event is Panes),
            ActionView::Restore(_) => !(event is Restored),
            ActionView::Write(_) => !(event is Written),
            ActionView::Stop => true,
        }) ==> next(filters, pane, state, event) == state,
{
}

} // verus!
