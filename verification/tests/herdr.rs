//! Ranking the sessions of panes.

use termcopy::herdr::{ranked_session_ids, session_of, AgentSession, Pane};

fn pane(
    id: &str,
    tab: &str,
    workspace: &str,
    agent: Option<&str>,
    session: Option<&str>,
) -> Pane {
    Pane {
        pane_id: id.to_string(),
        tab_id: tab.to_string(),
        workspace_id: workspace.to_string(),
        focused: false,
        agent: agent.map(str::to_string),
        agent_session: session.map(|value| AgentSession {
            value: Some(value.to_string()),
        }),
        cwd: None,
    }
}

fn fixture() -> Vec<Pane> {
    let mut panes = vec![
        pane(
            "pane-same-tab",
            "tab-primary",
            "workspace-primary",
            Some("codex"),
            Some("session-same-tab"),
        ),
        pane(
            "pane-same-workspace",
            "tab-secondary",
            "workspace-primary",
            Some("codex"),
            Some("session-same-workspace"),
        ),
        pane(
            "pane-elsewhere",
            "tab-elsewhere",
            "workspace-secondary",
            Some("codex"),
            Some("session-elsewhere"),
        ),
        pane(
            "pane-self",
            "tab-primary",
            "workspace-primary",
            Some("codex"),
            Some("session-self"),
        ),
        pane(
            "pane-focused",
            "tab-elsewhere",
            "workspace-secondary",
            Some("codex"),
            Some("session-focused"),
        ),
    ];
    panes[4].focused = true;
    panes
}

#[test]
fn ranks_outwards_from_the_pane_it_was_started_in() {
    assert_eq!(
        ranked_session_ids(&fixture(), Some("pane-self")),
        vec![
            "session-self",
            "session-focused",
            "session-same-tab",
            "session-same-workspace",
            "session-elsewhere",
        ]
    );
}

#[test]
fn falls_back_to_the_focused_pane_when_started_outside_herdr() {
    let ranked = ranked_session_ids(&fixture(), None);
    assert_eq!(ranked.first().map(String::as_str), Some("session-focused"));
    assert_eq!(ranked.len(), 5);
}

#[test]
fn ignores_panes_running_another_agent_or_none_at_all() {
    let panes = vec![
        pane(
            "other-agent",
            "tab-1",
            "workspace-1",
            Some("other-agent"),
            Some("other-session"),
        ),
        pane("no-agent", "tab-1", "workspace-1", None, None),
        pane(
            "codex-pane",
            "tab-1",
            "workspace-1",
            Some("codex"),
            Some("codex-session"),
        ),
        pane(
            "codex-without-session",
            "tab-1",
            "workspace-1",
            Some("codex"),
            None,
        ),
    ];
    assert_eq!(ranked_session_ids(&panes, None), vec!["codex-session"]);
}

#[test]
fn lists_a_session_once_even_when_several_panes_share_it() {
    let panes = vec![
        pane(
            "shared-pane-a",
            "tab-1",
            "workspace-1",
            Some("codex"),
            Some("shared"),
        ),
        pane(
            "shared-pane-b",
            "tab-2",
            "workspace-1",
            Some("codex"),
            Some("shared"),
        ),
    ];
    assert_eq!(ranked_session_ids(&panes, None), vec!["shared"]);
}

#[test]
fn resolves_the_session_of_a_named_pane() {
    assert_eq!(
        session_of(&fixture(), "pane-same-tab"),
        Some("session-same-tab".to_string())
    );
    assert_eq!(session_of(&fixture(), "does-not-exist"), None);
}
