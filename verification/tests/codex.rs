//! Reading rollout transcripts.

use termcopy::codex::{load, parse, Block, BlockKind};
use termcopy::record::is_synthetic_user_text;

fn blocks_from(lines: &[&str]) -> Vec<Block> {
    parse(lines.join("\n").as_bytes()).1
}

#[test]
fn reads_agent_and_user_messages_from_item_completed() {
    let blocks = blocks_from(&[
        r#"{"type":"session_meta","payload":{"id":"session-current","cwd":"/fixture/worktree","cli_version":"0.147.0"}}"#,
        r#"{"type":"event_msg","payload":{"type":"item_completed","item":{"type":"UserMessage","content":[{"type":"text","text":"Please write a query"}]}}}"#,
        r#"{"type":"event_msg","payload":{"type":"item_completed","item":{"type":"AgentMessage","content":[{"type":"Text","text":"The target is `sample_groups`."}]}}}"#,
    ]);
    assert_eq!(
        blocks,
        vec![
            Block {
                kind: BlockKind::UserMessage,
                text: "Please write a query".into()
            },
            Block {
                kind: BlockKind::AgentMessage,
                text: "The target is `sample_groups`.".into()
            },
        ]
    );
}

#[test]
fn reads_messages_from_response_item_on_older_sessions() {
    let blocks = blocks_from(&[
        r#"{"type":"response_item","payload":{"type":"message","role":"assistant","content":[{"type":"output_text","text":"done"}]}}"#,
    ]);
    assert_eq!(
        blocks,
        vec![Block {
            kind: BlockKind::AgentMessage,
            text: "done".into()
        }]
    );
}

#[test]
fn splits_command_execution_into_script_and_output() {
    let blocks = blocks_from(&[
        r#"{"type":"event_msg","payload":{"type":"item_completed","item":{"type":"CommandExecution","command":["/bin/zsh","-lc","ls -la"],"aggregated_output":"AGENTS.md\nsrc\n"}}}"#,
    ]);
    assert_eq!(
        blocks,
        vec![
            Block {
                kind: BlockKind::Command,
                text: "ls -la".into()
            },
            Block {
                kind: BlockKind::CommandOutput,
                text: "AGENTS.md\nsrc\n".into()
            },
        ]
    );
}

#[test]
fn unwraps_double_encoded_tool_output() {
    let blocks = blocks_from(&[
        r#"{"type":"response_item","payload":{"type":"custom_tool_call_output","output":"[{\"type\":\"input_text\",\"text\":\"Output:\\n\"},{\"type\":\"input_text\",\"text\":\"README.md\\n\"}]"}}"#,
    ]);
    assert_eq!(
        blocks,
        vec![Block {
            kind: BlockKind::CommandOutput,
            text: "Output:\nREADME.md\n".into()
        }]
    );
}

#[test]
fn drops_developer_turns_and_injected_user_blobs() {
    let blocks = blocks_from(&[
        r#"{"type":"response_item","payload":{"type":"message","role":"developer","content":[{"type":"input_text","text":"<app-context>hi</app-context>"}]}}"#,
        r#"{"type":"response_item","payload":{"type":"message","role":"user","content":[{"type":"input_text","text":"<environment_context>\n<current_date>2026-08-08</current_date>\n</environment_context>"}]}}"#,
        r##"{"type":"response_item","payload":{"type":"message","role":"user","content":[{"type":"input_text","text":"# AGENTS.md instructions for /fixture/worktree\n\nrules"}]}}"##,
        r#"{"type":"response_item","payload":{"type":"message","role":"user","content":[{"type":"input_text","text":"Please update the example-workflow"}]}}"#,
    ]);
    assert_eq!(
        blocks,
        vec![Block {
            kind: BlockKind::UserMessage,
            text: "Please update the example-workflow".into()
        }]
    );
}

#[test]
fn keeps_user_text_that_merely_starts_with_a_bracket() {
    assert!(!is_synthetic_user_text("[example-user]$ tool install"));
    assert!(!is_synthetic_user_text("<- this arrow is not a tag"));
    assert!(is_synthetic_user_text(
        "<skill>\n<name>example-workflow</name>"
    ));
}

/// Only the tags Codex actually injects are dropped. A question that opens
/// with a tag is a real question and has to stay findable.
#[test]
fn keeps_a_question_that_opens_with_an_html_tag() {
    assert!(!is_synthetic_user_text("<div> should render how?"));
    assert!(!is_synthetic_user_text("<Button /> does not render"));
}

#[test]
fn reads_the_array_form_of_tool_output() {
    let blocks = blocks_from(&[
        r#"{"type":"response_item","payload":{"type":"custom_tool_call_output","output":[{"type":"input_text","text":"Output:\n"},{"type":"input_text","text":"README.md\n"}]}}"#,
    ]);
    assert_eq!(
        blocks,
        vec![Block {
            kind: BlockKind::CommandOutput,
            text: "Output:\nREADME.md\n".into()
        }]
    );
}

#[test]
fn reads_a_sub_agent_message() {
    let blocks = blocks_from(&[
        r#"{"type":"response_item","payload":{"type":"agent_message","content":[{"type":"input_text","text":"Payload:\nThe requested changes are listed here."}]}}"#,
    ]);
    assert_eq!(blocks.len(), 1);
    assert_eq!(blocks[0].kind, BlockKind::AgentMessage);
}

/// Only the contents of the string literals are indexed. The JavaScript
/// around them was never drawn, so matching it is impossible and keeping it
/// would just pad the haystack.
#[test]
fn reads_the_script_a_tool_call_ran() {
    let blocks = blocks_from(&[
        r#"{"type":"response_item","payload":{"type":"custom_tool_call","name":"exec","input":"await tools.exec_command({cmd:\"ls -la\", workdir:\"/tmp\"})"}}"#,
    ]);
    assert_eq!(
        blocks,
        vec![Block {
            kind: BlockKind::Command,
            text: "ls -la\n/tmp".into()
        }]
    );
}

/// A patch arrives as one long literal whose newlines and quotes are still
/// escaped. The TUI drew the decoded form, so that is what has to be indexed.
#[test]
fn decodes_the_escapes_in_a_patch_literal() {
    let blocks = blocks_from(&[
        r#"{"type":"response_item","payload":{"type":"custom_tool_call","name":"exec","input":"const patch = \"*** Begin Patch\\n+if [ \\\"$mode\\\" ]; then\\n+    printf '%s\\\\n' ok\\n\""}}"#,
    ]);
    assert_eq!(
        blocks,
        vec![Block {
            kind: BlockKind::Command,
            // A doubled backslash in the source is one literal backslash, so
            // `printf '%s\n'` keeps its escape instead of becoming a newline.
            text: "*** Begin Patch\n+if [ \"$mode\" ]; then\n+    printf '%s\\n' ok\n".into()
        }]
    );
}

#[test]
fn a_tool_call_with_no_string_literals_contributes_nothing() {
    let blocks = blocks_from(&[
        r#"{"type":"response_item","payload":{"type":"custom_tool_call","name":"exec","input":"await tools.noop()"}}"#,
    ]);
    assert!(blocks.is_empty());
}

#[test]
fn a_file_that_is_not_a_rollout_is_an_error_rather_than_an_empty_transcript() {
    let error = load(
        "termcopy-not-a-rollout.txt",
        "termcopy-not-a-rollout",
        b"127.0.0.1 localhost\n",
    )
    .unwrap_err()
    .message();
    assert!(error.contains("not a Codex rollout file"), "{error}");
}

#[test]
fn deduplicates_text_repeated_across_both_record_kinds() {
    let blocks = blocks_from(&[
        r#"{"type":"event_msg","payload":{"type":"item_completed","item":{"type":"AgentMessage","content":[{"type":"Text","text":"same text"}]}}}"#,
        r#"{"type":"response_item","payload":{"type":"message","role":"assistant","content":[{"type":"output_text","text":"same text"}]}}"#,
    ]);
    assert_eq!(blocks.len(), 1);
}

#[test]
fn skips_malformed_lines_instead_of_failing() {
    let blocks = blocks_from(&[
        "not json at all",
        "",
        r#"{"type":"event_msg","payload":{"type":"item_completed","item":{"type":"AgentMessage","content":[{"type":"Text","text":"survived"}]}}}"#,
        r#"{"type":"event_msg","payload":{"type":"item_c"#,
    ]);
    assert_eq!(
        blocks,
        vec![Block {
            kind: BlockKind::AgentMessage,
            text: "survived".into()
        }]
    );
}
