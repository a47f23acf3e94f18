//! The texts inside records, on values given as they are.

use termcopy::codex::{parse, record_cwd, session_cwd, Block, BlockKind, Reader};
use termcopy::json::{parse_json, Json};
use termcopy::record::{
    is_synthetic_user_text, join_text_parts, parse_tool_output, script_literals, shell_script,
    unwrap_output,
};

fn text(words: &str) -> Json {
    Json::Text(words.to_string())
}

fn object(entries: Vec<(&str, Json)>) -> Json {
    Json::Object(
        entries
            .into_iter()
            .map(|(key, value)| (key.to_string(), value))
            .collect(),
    )
}

#[test]
fn json_is_read_into_plain_values() {
    let json = parse_json(r#"{"a":"x\n\u00e9","b":[1,null,"y"],"c":{"d":true},"a":"last"}"#);
    let json = json.unwrap();
    assert_eq!(json.text_at("a"), Some("last"));
    assert_eq!(json.text_at("b"), None);
    assert_eq!(json.text_at("missing"), None);
    assert!(matches!(json.get("c").unwrap().get("d"), Some(Json::Other)));
    match json.get("b") {
        Some(Json::Array(items)) => {
            assert_eq!(items.len(), 3);
            assert!(matches!(items[0], Json::Other));
            assert!(matches!(items[1], Json::Other));
            assert_eq!(items[2].as_str(), Some("y"));
        }
        other => panic!("{other:?}"),
    }
    assert_eq!(parse_json(r#""x\n\u00e9""#).unwrap().as_str(), Some("x\n\u{e9}"));
    assert!(parse_json("").is_none());
    assert!(parse_json("{\"a\":1").is_none());
    assert!(parse_json("{} {}").is_none());
    assert!(parse_json(" 1 \r\n").is_some());
    assert!(text("x").get("a").is_none());
    assert!(Json::Array(vec![text("x")]).get("0").is_none());
}

#[test]
fn content_parts_are_joined_as_they_stand() {
    let parts = Json::Array(vec![
        text("one "),
        object(vec![("type", text("Text")), ("text", text("two"))]),
        object(vec![("text", Json::Other)]),
        object(vec![("image", text("skipped"))]),
        Json::Other,
        Json::Array(vec![text("nested")]),
        text("!"),
    ]);
    assert_eq!(join_text_parts(Some(&parts)).as_deref(), Some("one two!"));
    assert_eq!(join_text_parts(Some(&Json::Array(vec![]))).as_deref(), Some(""));
    assert_eq!(join_text_parts(Some(&text("plain"))), None);
    assert_eq!(join_text_parts(Some(&Json::Other)), None);
    assert_eq!(join_text_parts(None), None);
}

#[test]
fn tool_output_comes_in_three_shapes() {
    let array = Json::Array(vec![object(vec![("text", text("a"))]), text("b")]);
    assert_eq!(parse_tool_output(Some(&array)).as_deref(), Some("ab"));
    let encoded = text(r#"[{"text":"Output:\n"},"done"]"#);
    assert_eq!(
        parse_tool_output(Some(&encoded)).as_deref(),
        Some("Output:\ndone")
    );
    // Valid JSON that is no array is a plain string after all.
    assert_eq!(parse_tool_output(Some(&text("42"))).as_deref(), Some("42"));
    assert_eq!(
        parse_tool_output(Some(&text("not json"))).as_deref(),
        Some("not json")
    );
    assert_eq!(parse_tool_output(Some(&Json::Other)), None);
    assert_eq!(parse_tool_output(Some(&object(vec![]))), None);
    assert_eq!(parse_tool_output(None), None);

    assert_eq!(unwrap_output("raw", None), "raw");
    assert_eq!(unwrap_output("raw", Some(&text("x"))), "raw");
    assert_eq!(unwrap_output("raw", Some(&array)), "ab");
}

#[test]
fn shell_wrappers_are_taken_off_commands() {
    let command = |words: &[&str]| {
        let items = words.iter().map(|word| text(word)).collect();
        shell_script(Some(&Json::Array(items)))
    };
    assert_eq!(command(&["/bin/zsh", "-lc", "ls -la"]).as_deref(), Some("ls -la"));
    assert_eq!(command(&["bash", "-c", "a", "b"]).as_deref(), Some("a b"));
    assert_eq!(command(&["fish", "-lic", "x"]).as_deref(), Some("x"));
    assert_eq!(command(&["bash", "-c"]).as_deref(), Some("bash -c"));
    assert_eq!(command(&["git", "log", "-c"]).as_deref(), Some("git log -c"));
    assert_eq!(command(&[]).as_deref(), Some(""));
    let mixed = Json::Array(vec![text("sh"), Json::Other, text("-c"), text("pwd")]);
    assert_eq!(shell_script(Some(&mixed)).as_deref(), Some("pwd"));
    assert_eq!(shell_script(Some(&text("ls"))), None);
    assert_eq!(shell_script(None), None);
}

#[test]
fn literals_of_a_script_are_decoded() {
    assert_eq!(script_literals("f('a', \"b\", `c`)").as_deref(), Some("a\nb\nc"));
    assert_eq!(
        script_literals(r#"x = "tab\tnl\ncr\rnul\0 q\" s\' b\` \\ \d""#).as_deref(),
        Some("tab\tnl\ncr\rnul\0 q\" s' b` \\ d")
    );
    assert_eq!(script_literals("'it\"s'").as_deref(), Some("it\"s"));
    assert_eq!(script_literals("'never closed").as_deref(), Some("never closed"));
    assert_eq!(script_literals("'cut short\\").as_deref(), Some("cut short"));
    assert_eq!(script_literals("'' \"  \" 'x'").as_deref(), Some("x"));
    assert_eq!(script_literals("'' \" \\n\""), None);
    assert_eq!(script_literals(""), None);
}

#[test]
fn injected_turns_are_told_by_their_opening() {
    for opening in [
        "# AGENTS.md instructions for /x",
        "  <environment_context>",
        "\n<user_instructions>",
        "<skill>",
        "<skills_instructions>",
        "<turn_aborted>",
        "<recommended_plugins>",
        "<app-context>",
        "<collaboration_mode>",
    ] {
        assert!(is_synthetic_user_text(opening), "{opening:?}");
    }
    for written in ["", "# AGENTS.md", "<skills>", "x <skill>", "<environment_context"] {
        assert!(!is_synthetic_user_text(written), "{written:?}");
    }
}

#[test]
fn a_reader_takes_records_one_by_one() {
    let mut reader = Reader::new();
    let message = |role: &str, words: &str| {
        object(vec![
            ("type", text("response_item")),
            (
                "payload",
                object(vec![
                    ("type", text("message")),
                    ("role", text(role)),
                    ("content", Json::Array(vec![text(words)])),
                ]),
            ),
        ])
    };
    reader.record(&message("user", "question"));
    reader.record(&message("assistant", "answer"));
    reader.record(&message("assistant", "question"));
    reader.record(&message("assistant", " \n"));
    reader.record(&message("user", "<skill> hidden"));
    reader.record(&message("system", "never shown"));
    reader.record(&message("assistant", "answer"));
    reader.record(&object(vec![("type", text("response_item"))]));
    reader.record(&object(vec![("type", text("other")), ("payload", object(vec![]))]));
    reader.record(&object(vec![
        ("type", text("response_item")),
        (
            "payload",
            object(vec![
                ("type", text("reasoning")),
                ("summary", Json::Array(vec![object(vec![("text", text("because"))])])),
            ]),
        ),
    ]));
    reader.record(&object(vec![
        ("type", text("event_msg")),
        (
            "payload",
            object(vec![
                ("type", text("item_completed")),
                (
                    "item",
                    object(vec![
                        ("type", text("Reasoning")),
                        ("summary_text", Json::Array(vec![text("thinking")])),
                    ]),
                ),
            ]),
        ),
    ]));
    reader.record(&object(vec![
        ("type", text("session_meta")),
        ("payload", object(vec![("id", text("one")), ("cwd", Json::Other)])),
    ]));
    let (meta, blocks) = reader.finish();
    assert_eq!(meta.id.as_deref(), Some("one"));
    assert_eq!(meta.cwd, None);
    assert_eq!(meta.cli_version, None);
    let expected = [
        (BlockKind::UserMessage, "question"),
        (BlockKind::AgentMessage, "answer"),
        (BlockKind::Reasoning, "because"),
        (BlockKind::Reasoning, "thinking"),
    ];
    assert_eq!(
        blocks,
        expected
            .into_iter()
            .map(|(kind, text)| Block {
                kind,
                text: text.to_string()
            })
            .collect::<Vec<_>>()
    );
}

#[test]
fn rows_without_a_record_change_nothing_wherever_they_stand() {
    let good = "{\"type\":\"response_item\",\"payload\":{\"type\":\"message\",\"role\":\"assistant\",\"content\":[\"kept\"]}}";
    let mut bytes = Vec::new();
    bytes.extend_from_slice(b"\xFF\xFE not text\n");
    bytes.extend_from_slice(good.as_bytes());
    bytes.extend_from_slice(b"\r\n{\"cut\":\n");
    assert_eq!(parse(&bytes), parse(good.as_bytes()));
    assert_eq!(parse(good.as_bytes()).1.len(), 1);
    let twice = format!("{good}\n{good}\n");
    assert_eq!(parse(twice.as_bytes()), parse(good.as_bytes()));
}

#[test]
fn the_header_of_a_session_names_its_directory() {
    let line = "{\"type\":\"session_meta\",\"payload\":{\"cwd\":\"/work\"}}\n";
    assert_eq!(session_cwd(line.as_bytes()).as_deref(), Some("/work"));
    assert_eq!(session_cwd(b"{\"type\":\"event_msg\",\"payload\":{\"cwd\":\"/work\"}}"), None);
    assert_eq!(session_cwd(b"{\"type\":\"session_meta\"}"), None);
    assert_eq!(session_cwd(b""), None);
    assert_eq!(session_cwd(b"\xFF"), None);
    assert_eq!(record_cwd(&Json::Other), None);
}
