//! The texts inside the records of a rollout file: content parts, tool output,
//! shell commands and the string literals of a script.

use vstd::prelude::*;
use vstd::string::StringExecFns;

use crate::json::{json_text, optional_ref, parse_json, text_field, text_of, Json, JsonView};
use crate::text::{
    blank, chars_of, is_blank, join, join_strings, same_text, skip_white_space, starts_at,
    string_view, trim_start, views,
};

verus! {

// Content parts

/// The text of one content part: a bare string, or the `text` of an object.
pub open spec fn part_text(part: JsonView) -> Option<Seq<char>> {
    match part {
        JsonView::Text(text) => Some(text),
        _ => text_field(part, "text"@),
    }
}

/// The texts of content parts in a row. A part without a text adds nothing.
pub open spec fn parts_text(parts: Seq<JsonView>) -> Seq<char>
    decreases parts.len(),
{
    if parts.len() == 0 {
        Seq::empty()
    } else {
        parts_text(parts.drop_last()) + (match part_text(parts.last()) {
            Some(text) => text,
            None => Seq::empty(),
        })
    }
}

/// The text of a content array. Anything else has none.
pub open spec fn content_text(value: Option<JsonView>) -> Option<Seq<char>> {
    match value {
        Some(JsonView::Array(parts)) => Some(parts_text(parts)),
        _ => None,
    }
}

/// Concatenate the `text` fields of a content array. Also accepts an array of
/// bare strings, which is how some item variants store their parts.
pub fn join_text_parts(value: Option<&Json>) -> (text: Option<String>)
    ensures
        string_view(text) == content_text(optional_ref(value)),
{
    match value {
        Some(Json::Array(parts)) => {
            let ghost all = Json::Array(*parts)@->Array_0;
            let mut joined = String::new();
            let mut i: usize = 0;
            assert(all.take(0) == Seq::<JsonView>::empty());
            while i < parts.len()
                invariant
                    i <= parts@.len() == all.len(),
                    forall|k: int| 0 <= k < all.len() ==> #[trigger] all[k] == parts@[k]@,
                    joined@ == parts_text(all.take(i as int)),
                decreases parts@.len() - i,
            {
                proof {
                    assert(all.take(i + 1).drop_last() == all.take(i as int));
                    assert(all.take(i + 1).last() == parts@[i as int]@);
                }
                let part = &parts[i];
                match part {
                    Json::Text(text) => {
                        assert(part@ == JsonView::Text(text@));
                        joined.append(text.as_str());
                    },
                    _ => {
                        assert(!(part@ is Text));
                        if let Some(text) = part.text_at("text") {
                            joined.append(text);
                        }
                    },
                }
                i = i + 1;
            }
            assert(all.take(all.len() as int) == all);
            Some(joined)
        },
        _ => None,
    }
}

// Tool output

/// The text of a tool's output that was stored as a plain string, given what
/// parsing the string made of it: the text of the content array it holds, or the
/// string as it is.
pub open spec fn string_output(raw: Seq<char>, parsed: Option<JsonView>) -> Seq<char> {
    match content_text(parsed) {
        Some(text) => text,
        None => raw,
    }
}

/// The text of a tool's output.
pub open spec fn output_text(value: Option<JsonView>) -> Option<Seq<char>> {
    match value {
        Some(JsonView::Array(_)) => content_text(value),
        Some(JsonView::Text(raw)) => Some(string_output(raw, json_text(raw))),
        _ => None,
    }
}

/// The text of a tool's output that was stored as a plain string, given what
/// parsing the string made of it.
pub fn unwrap_output(raw: &str, parsed: Option<&Json>) -> (text: String)
    ensures
        text@ == string_output(raw@, optional_ref(parsed)),
{
    match join_text_parts(parsed) {
        Some(text) => text,
        None => raw.to_string(),
    }
}

/// `custom_tool_call_output.output` holds the command's output in one of three
/// shapes: an array of content parts, a JSON string holding such an array, or a
/// plain string. Roughly nine in ten records use the array form, so mishandling
/// it costs most of the command output in the transcript.
pub fn parse_tool_output(value: Option<&Json>) -> (text: Option<String>)
    ensures
        string_view(text) == output_text(optional_ref(value)),
{
    match value {
        Some(Json::Array(_)) => join_text_parts(value),
        Some(Json::Text(raw)) => {
            let parsed = parse_json(raw.as_str());
            Some(unwrap_output(raw.as_str(), parsed.as_ref()))
        },
        _ => None,
    }
}

// Shell commands

/// The strings among the items of an array, in order.
pub open spec fn strings(items: Seq<JsonView>) -> Seq<Seq<char>>
    decreases items.len(),
{
    if items.len() == 0 {
        Seq::empty()
    } else {
        let before = strings(items.drop_last());
        match text_of(items.last()) {
            Some(text) => before.push(text),
            None => before,
        }
    }
}

/// The flags by which a shell takes a script as its next argument.
pub open spec fn script_flag(word: Seq<char>) -> bool {
    word == "-lc"@ || word == "-c"@ || word == "-lic"@
}

/// The command line of an argument list, without the shell it was wrapped in.
pub open spec fn command_line(words: Seq<Seq<char>>) -> Seq<char> {
    if words.len() >= 3 && script_flag(words[1]) {
        join(words.skip(2), " "@)
    } else {
        join(words, " "@)
    }
}

/// The command line of an array of strings. Anything but an array has none.
pub open spec fn command_text(value: Option<JsonView>) -> Option<Seq<char>> {
    match value {
        Some(JsonView::Array(items)) => Some(command_line(strings(items))),
        _ => None,
    }
}

/// Turn `["/bin/zsh", "-lc", "ls -la"]` into `ls -la`, which is what the TUI
/// displays. Anything that is not a shell wrapper is joined as-is.
pub fn shell_script(value: Option<&Json>) -> (text: Option<String>)
    ensures
        string_view(text) == command_text(optional_ref(value)),
{
    match value {
        Some(Json::Array(items)) => {
            let ghost all = Json::Array(*items)@->Array_0;
            let mut words: Vec<String> = Vec::new();
            let mut i: usize = 0;
            assert(all.take(0) == Seq::<JsonView>::empty());
            assert(views(words@) == strings(all.take(0)));
            while i < items.len()
                invariant
                    i <= items@.len() == all.len(),
                    forall|k: int| 0 <= k < all.len() ==> #[trigger] all[k] == items@[k]@,
                    views(words@) == strings(all.take(i as int)),
                decreases items@.len() - i,
            {
                proof {
                    assert(all.take(i + 1).drop_last() == all.take(i as int));
                    assert(all.take(i + 1).last() == items@[i as int]@);
                }
                if let Some(text) = items[i].as_str() {
                    let ghost before = words@;
                    words.push(text.to_string());
                    assert(views(words@) == views(before).push(text@));
                }
                i = i + 1;
            }
            assert(all.take(all.len() as int) == all);
            let ghost line = views(words@);
            let wrapped = words.len() >= 3 && (same_text(words[1].as_str(), "-lc") || same_text(
                words[1].as_str(),
                "-c",
            ) || same_text(words[1].as_str(), "-lic"));
            assert(line.len() >= 3 ==> line[1] == words@[1]@);
            assert(line.skip(0) == line);
            let from: usize = if wrapped {
                2
            } else {
                0
            };
            Some(join_strings(&words, from, " "))
        },
        _ => None,
    }
}

// Script literals

/// The quotes that open a string literal.
pub open spec fn quote_mark(ch: char) -> bool {
    ch == '"' || ch == '\'' || ch == '`'
}

/// What an escaped character stands for. Anything that is not a known escape
/// stands for itself, which covers quotes and the backslash and leaves unknown
/// escapes readable.
pub open spec fn unescaped(ch: char) -> char {
    if ch == 'n' {
        '\n'
    } else if ch == 't' {
        '\t'
    } else if ch == 'r' {
        '\r'
    } else if ch == '0' {
        '\0'
    } else {
        ch
    }
}

/// The contents of a literal that has just been opened, and what follows its
/// closing quote. A literal that is never closed runs to the end.
pub open spec fn literal(text: Seq<char>, quote: char) -> (Seq<char>, Seq<char>)
    decreases text.len(),
{
    if text.len() == 0 {
        (Seq::empty(), Seq::empty())
    } else if text[0] == quote {
        (Seq::empty(), text.skip(1))
    } else if text[0] == '\\' {
        if text.len() == 1 {
            (Seq::empty(), Seq::empty())
        } else {
            let (rest, after) = literal(text.skip(2), quote);
            (seq![unescaped(text[1])] + rest, after)
        }
    } else {
        let (rest, after) = literal(text.skip(1), quote);
        (seq![text[0]] + rest, after)
    }
}

/// A literal leaves less to read than there was.
pub proof fn lemma_literal_shrinks(text: Seq<char>, quote: char)
    ensures
        literal(text, quote).1.len() <= text.len(),
    decreases text.len(),
{
    if text.len() > 0 && text[0] != quote {
        if text[0] == '\\' && text.len() > 1 {
            lemma_literal_shrinks(text.skip(2), quote);
        } else if text[0] != '\\' {
            lemma_literal_shrinks(text.skip(1), quote);
        }
    }
}

/// The contents of the string literals of a script, in order, blank ones left
/// out.
pub open spec fn literals(text: Seq<char>) -> Seq<Seq<char>>
    decreases text.len(),
{
    if text.len() == 0 {
        Seq::empty()
    } else if quote_mark(text[0]) {
        proof {
            lemma_literal_shrinks(text.skip(1), text[0]);
        }
        let (inside, after) = literal(text.skip(1), text[0]);
        if blank(inside) {
            literals(after)
        } else {
            seq![inside] + literals(after)
        }
    } else {
        literals(text.skip(1))
    }
}

/// The string literals of a script, one per line, if there are any.
pub open spec fn script_text(text: Seq<char>) -> Option<Seq<char>> {
    if literals(text).len() == 0 {
        None
    } else {
        Some(join(literals(text), "\n"@))
    }
}

/// The contents of the literal that opens at `from`, and the position behind it.
fn read_literal(chars: &Vec<char>, from: usize, quote: char) -> (read: (String, usize))
    requires
        from <= chars@.len(),
    ensures
        from <= read.1 <= chars@.len(),
        (read.0@, chars@.skip(read.1 as int)) == literal(chars@.skip(from as int), quote),
{
    let ghost whole = literal(chars@.skip(from as int), quote);
    let mut inside = String::new();
    let mut at: usize = from;
    assert(inside@ + whole.0 == whole.0);
    while at < chars.len()
        invariant
            from <= at <= chars@.len(),
            whole.0 == inside@ + literal(chars@.skip(at as int), quote).0,
            whole.1 == literal(chars@.skip(at as int), quote).1,
            whole == literal(chars@.skip(from as int), quote),
        decreases chars@.len() - at,
    {
        let ghost text = chars@.skip(at as int);
        let ghost before = inside@;
        assert(text.skip(1) == chars@.skip(at + 1));
        let ch = chars[at];
        if ch == quote {
            return (inside, at + 1);
        }
        if ch == '\\' {
            if at + 1 == chars.len() {
                assert(chars@.skip(chars@.len() as int) == Seq::<char>::empty());
                return (inside, at + 1);
            }
            assert(text.skip(2) == chars@.skip(at + 2));
            let escape = chars[at + 1];
            inside.push(
                match escape {
                    'n' => '\n',
                    't' => '\t',
                    'r' => '\r',
                    '0' => '\0',
                    other => other,
                },
            );
            proof {
                let rest = literal(text.skip(2), quote).0;
                assert(before + (seq![unescaped(escape)] + rest) == inside@ + rest);
            }
            at = at + 2;
        } else {
            inside.push(ch);
            proof {
                let rest = literal(text.skip(1), quote).0;
                assert(before + (seq![ch] + rest) == inside@ + rest);
            }
            at = at + 1;
        }
    }
    assert(chars@.skip(at as int) == Seq::<char>::empty());
    (inside, at)
}

/// The contents of the string literals in a tool call's JavaScript snippet.
///
/// A call arrives as source rather than data:
///
/// ```text
/// const patch = "*** Begin Patch\n+#!/bin/sh\n+set -eu\n"
/// const r = await tools.exec_command({cmd:"ls -la", workdir:"/tmp"})
/// ```
///
/// What the TUI drew is the decoded contents of those literals — real newlines,
/// real quotes — and never the scaffolding around them. Indexing the raw source
/// would therefore fail to match the command as displayed while filling the
/// haystack with text that was never on screen.
pub fn script_literals(input: &str) -> (text: Option<String>)
    ensures
        string_view(text) == script_text(input@),
{
    let chars = chars_of(input);
    let ghost all = literals(input@);
    let mut found: Vec<String> = Vec::new();
    let mut at: usize = 0;
    assert(chars@.skip(0) == input@);
    assert(views(found@) + all == all);
    while at < chars.len()
        invariant
            at <= chars@.len(),
            chars@ == input@,
            all == literals(input@),
            all == views(found@) + literals(chars@.skip(at as int)),
        decreases chars@.len() - at,
    {
        let ghost text = chars@.skip(at as int);
        assert(text.skip(1) == chars@.skip(at + 1));
        let ch = chars[at];
        if ch == '"' || ch == '\'' || ch == '`' {
            let (inside, after) = read_literal(&chars, at + 1, ch);
            if !is_blank(inside.as_str()) {
                let ghost before = found@;
                let ghost rest = literals(chars@.skip(after as int));
                let ghost shown = inside@;
                found.push(inside);
                assert(views(found@) == views(before).push(shown));
                assert(views(before) + (seq![shown] + rest) == views(found@) + rest);
            }
            at = after;
        } else {
            at = at + 1;
        }
    }
    assert(literals(chars@.skip(at as int)) == Seq::<Seq<char>>::empty());
    assert(views(found@) == all);
    assert(all.skip(0) == all);
    if found.len() == 0 {
        None
    } else {
        Some(join_strings(&found, 0, "\n"))
    }
}

// Injected turns

/// The openings of instruction blobs that Codex injects as user turns.
pub open spec fn injected_opening(text: Seq<char>) -> bool {
    ||| "# AGENTS.md instructions for "@.is_prefix_of(text)
    ||| "<environment_context>"@.is_prefix_of(text)
    ||| "<user_instructions>"@.is_prefix_of(text)
    ||| "<skill>"@.is_prefix_of(text)
    ||| "<skills_instructions>"@.is_prefix_of(text)
    ||| "<turn_aborted>"@.is_prefix_of(text)
    ||| "<recommended_plugins>"@.is_prefix_of(text)
    ||| "<app-context>"@.is_prefix_of(text)
    ||| "<collaboration_mode>"@.is_prefix_of(text)
}

/// Instruction blobs Codex injects as user turns. They are never rendered, so
/// matching against them could only ever produce a wrong answer.
///
/// They are named rather than "anything that opens with a tag", so a question
/// like "<div> should render how?" stays in the index and can still be restored.
pub fn is_synthetic_user_text(text: &str) -> (yes: bool)
    ensures
        yes == injected_opening(trim_start(text@)),
{
    let chars = chars_of(text);
    let start: usize = skip_white_space(&chars, 0);
    assert(chars@.skip(0) == text@);
    starts_at(&chars, start, "# AGENTS.md instructions for ") || starts_at(
        &chars,
        start,
        "<environment_context>",
    ) || starts_at(&chars, start, "<user_instructions>") || starts_at(&chars, start, "<skill>")
        || starts_at(&chars, start, "<skills_instructions>") || starts_at(
        &chars,
        start,
        "<turn_aborted>",
    ) || starts_at(&chars, start, "<recommended_plugins>") || starts_at(
        &chars,
        start,
        "<app-context>",
    ) || starts_at(&chars, start, "<collaboration_mode>")
}

// Laws

/// The parts of a content array are read in a row and none is left out: a string as it
/// is, an object by its `text`, anything else as nothing.
pub proof fn law_parts_are_read_in_a_row(parts: Seq<JsonView>, texts: Seq<Seq<char>>)
    requires
        parts.len() == texts.len(),
        forall|i: int|
            0 <= i < parts.len() ==> texts[i] == (match #[trigger] parts[i] {
                JsonView::Text(text) => text,
                JsonView::Object(_) => match text_field(parts[i], "text"@) {
                    Some(text) => text,
                    None => Seq::empty(),
                },
                _ => Seq::empty(),
            }),
    ensures
        content_text(Some(JsonView::Array(parts))) == Some(texts.flatten()),
        output_text(Some(JsonView::Array(parts))) == Some(texts.flatten()),
    decreases parts.len(),
{
    if parts.len() > 0 {
        let front = parts.drop_last();
        law_parts_are_read_in_a_row(front, texts.drop_last());
        assert(parts[parts.len() - 1] == parts.last());
        assert(texts == texts.drop_last().push(texts.last()));
        texts.drop_last().lemma_flatten_push(texts.last());
    }
}

/// Only an array has content.
pub proof fn law_only_arrays_have_content(value: Option<JsonView>)
    requires
        !(value matches Some(JsonView::Array(_))),
    ensures
        content_text(value) is None,
        command_text(value) is None,
        !(value matches Some(JsonView::Text(_))) ==> output_text(value) is None,
{
}

/// Output stored as a string is that of the array which the string holds as JSON, and
/// otherwise the string as it is.
pub proof fn law_output_is_unwrapped(raw: Seq<char>, parts: Seq<JsonView>)
    ensures
        json_text(raw) == Some(JsonView::Array(parts)) ==> output_text(Some(JsonView::Text(raw)))
            == content_text(Some(JsonView::Array(parts))),
        !(json_text(raw) matches Some(JsonView::Array(_))) ==> output_text(
            Some(JsonView::Text(raw)),
        ) == Some(raw),
{
}

/// Words as the strings of an array.
pub open spec fn word_values(words: Seq<Seq<char>>) -> Seq<JsonView> {
    words.map_values(|word: Seq<char>| JsonView::Text(word))
}

/// A script handed to a shell is shown as it is, whatever the shell and the script are.
pub proof fn law_a_shell_shows_its_script(shell: Seq<char>, flag: Seq<char>, script: Seq<char>)
    requires
        flag == "-lc"@ || flag == "-c"@ || flag == "-lic"@,
    ensures
        command_text(Some(JsonView::Array(word_values(seq![shell, flag, script])))) == Some(
            script,
        ),
{
    let words = seq![shell, flag, script];
    lemma_words(words);
    assert(words.skip(2) == seq![script]);
}

/// Any other command is its words with a space between them.
pub proof fn law_other_commands_are_their_words(words: Seq<Seq<char>>)
    requires
        words.len() >= 3 ==> words[1] != "-lc"@ && words[1] != "-c"@ && words[1] != "-lic"@,
    ensures
        command_text(Some(JsonView::Array(word_values(words)))) == Some(join(words, seq![' '])),
{
    lemma_words(words);
    reveal_strlit(" ");
    assert(" "@ == seq![' ']);
}

/// More words behind the script of a shell follow it with a space between them.
pub proof fn law_arguments_follow_the_script(front: Seq<Seq<char>>, words: Seq<Seq<char>>)
    requires
        front.len() == 2,
        words.len() > 0,
        front[1] == "-lc"@ || front[1] == "-c"@ || front[1] == "-lic"@,
    ensures
        command_text(Some(JsonView::Array(word_values(front + words)))) == Some(
            join(words, seq![' ']),
        ),
{
    lemma_words(front + words);
    assert((front + words).skip(2) == words);
    reveal_strlit(" ");
    assert(" "@ == seq![' ']);
}

proof fn lemma_words(words: Seq<Seq<char>>)
    ensures
        strings(word_values(words)) == words,
    decreases words.len(),
{
    if words.len() > 0 {
        let front = words.drop_last();
        lemma_words(front);
        assert(word_values(words).drop_last() == word_values(front));
        assert(word_values(words).last() == JsonView::Text(words.last()));
    } else {
        assert(strings(word_values(words)) == words);
    }
}

/// Values that are no strings are no words.
pub proof fn law_only_strings_are_words(front: Seq<JsonView>, value: JsonView, back: Seq<JsonView>)
    requires
        !(value is Text),
    ensures
        command_text(Some(JsonView::Array(front.push(value) + back))) == command_text(
            Some(JsonView::Array(front + back)),
        ),
{
    lemma_not_a_word(front, value, back);
}

proof fn lemma_not_a_word(front: Seq<JsonView>, value: JsonView, back: Seq<JsonView>)
    requires
        !(value is Text),
    ensures
        strings(front.push(value) + back) == strings(front + back),
    decreases back.len(),
{
    if back.len() == 0 {
        assert(front.push(value) + back == front.push(value));
        assert(front + back == front);
        assert(front.push(value).drop_last() == front);
    } else {
        lemma_not_a_word(front, value, back.drop_last());
        assert((front.push(value) + back).drop_last() == front.push(value) + back.drop_last());
        assert((front + back).drop_last() == front + back.drop_last());
    }
}

/// A text as it is written between quotes: line feeds, tabs, carriage returns and nulls by
/// their letters, quotes and backslashes behind a backslash.
pub open spec fn quoted(text: Seq<char>, quote: char) -> Seq<char>
    decreases text.len(),
{
    if text.len() == 0 {
        Seq::empty()
    } else {
        let ch = text[0];
        let first = if ch == '\n' {
            seq!['\\', 'n']
        } else if ch == '\t' {
            seq!['\\', 't']
        } else if ch == '\r' {
            seq!['\\', 'r']
        } else if ch == '\0' {
            seq!['\\', '0']
        } else if ch == quote || ch == '\\' {
            seq!['\\', ch]
        } else {
            seq![ch]
        };
        first + quoted(text.drop_first(), quote)
    }
}

/// Literals read back: whatever text was written between quotes is what is shown, and
/// what follows is read on.
pub proof fn law_a_literal_reads_back(text: Seq<char>, quote: char, after: Seq<char>)
    requires
        quote == '"' || quote == '\'' || quote == '`',
        !blank(text),
    ensures
        literals(seq![quote] + quoted(text, quote) + seq![quote] + after) == seq![text] + literals(
            after,
        ),
{
    let source = seq![quote] + quoted(text, quote) + seq![quote] + after;
    lemma_literal_reads_back(text, quote, after);
    assert(source.skip(1) == quoted(text, quote) + seq![quote] + after);
}

proof fn lemma_literal_reads_back(text: Seq<char>, quote: char, after: Seq<char>)
    requires
        quote == '"' || quote == '\'' || quote == '`',
    ensures
        literal(quoted(text, quote) + seq![quote] + after, quote) == (text, after),
    decreases text.len(),
{
    let source = quoted(text, quote) + seq![quote] + after;
    if text.len() == 0 {
        assert(source.skip(1) == after);
        assert(text == Seq::<char>::empty());
    } else {
        let rest = text.drop_first();
        let later = quoted(rest, quote) + seq![quote] + after;
        lemma_literal_reads_back(rest, quote, after);
        assert(seq![text[0]] + rest == text);
        if source[0] == '\\' {
            assert(source.skip(2) == later);
        } else {
            assert(source.skip(1) == later);
        }
    }
}

/// What stands between literals is not shown.
pub proof fn law_scaffolding_is_not_shown(front: Seq<char>, after: Seq<char>)
    requires
        !front.contains('"'),
        !front.contains('\''),
        !front.contains('`'),
    ensures
        literals(front + after) == literals(after),
    decreases front.len(),
{
    if front.len() == 0 {
        assert(front + after == after);
    } else {
        let rest = front.drop_first();
        assert(front.contains(front[0]));
        assert forall|ch: char| rest.contains(ch) implies front.contains(ch) by {
            let k = choose|k: int| 0 <= k < rest.len() && rest[k] == ch;
            assert(front[k + 1] == ch);
        }
        law_scaffolding_is_not_shown(rest, after);
        assert((front + after).skip(1) == rest + after);
    }
}

/// Blank literals are not shown.
pub proof fn law_a_blank_literal_is_not_shown(text: Seq<char>, quote: char, after: Seq<char>)
    requires
        quote == '"' || quote == '\'' || quote == '`',
        blank(text),
    ensures
        literals(seq![quote] + quoted(text, quote) + seq![quote] + after) == literals(after),
{
    let source = seq![quote] + quoted(text, quote) + seq![quote] + after;
    lemma_literal_reads_back(text, quote, after);
    assert(source.skip(1) == quoted(text, quote) + seq![quote] + after);
}

/// The literals of a script are shown one per line, and a script without any shows
/// nothing.
pub proof fn law_literals_are_shown_one_per_line(source: Seq<char>, shown: Seq<Seq<char>>)
    requires
        literals(source) == shown,
    ensures
        shown.len() == 0 ==> script_text(source) is None,
        shown.len() > 0 ==> script_text(source) == Some(join(shown, seq!['\n'])),
{
    reveal_strlit("\n");
    assert("\n"@ == seq!['\n']);
}

/// The names of the blocks that Codex injects between tags.
pub open spec fn injected_tag(name: Seq<char>) -> bool {
    ||| name == "environment_context"@ || name == "user_instructions"@ || name == "skill"@
    ||| name == "skills_instructions"@ || name == "turn_aborted"@ || name == "recommended_plugins"@
    ||| name == "app-context"@ || name == "collaboration_mode"@
}

/// A text that opens with a tag was injected exactly when the tag is one of those that
/// Codex injects, and one that opens with neither a tag nor a heading never was.
pub proof fn law_injected_turns_are_told_by_their_tags(name: Seq<char>, rest: Seq<char>)
    requires
        !name.contains('>'),
    ensures
        injected_opening(seq!['<'] + name + seq!['>'] + rest) <==> injected_tag(name),
        rest.len() > 0 && rest[0] != '<' && rest[0] != '#' ==> !injected_opening(rest),
        rest.len() == 0 ==> !injected_opening(rest),
        rest.len() > 0 && rest[0] == '#' ==> (injected_opening(rest)
            <==> "# AGENTS.md instructions for "@.is_prefix_of(rest)),
{
    reveal_strlit("environment_context");
    reveal_strlit("<environment_context>");
    assert("<environment_context>"@ == seq!['<'] + "environment_context"@ + seq!['>']);
    lemma_tag("environment_context"@, "<environment_context>"@, name, rest);
    reveal_strlit("user_instructions");
    reveal_strlit("<user_instructions>");
    assert("<user_instructions>"@ == seq!['<'] + "user_instructions"@ + seq!['>']);
    lemma_tag("user_instructions"@, "<user_instructions>"@, name, rest);
    reveal_strlit("skill");
    reveal_strlit("<skill>");
    assert("<skill>"@ == seq!['<'] + "skill"@ + seq!['>']);
    lemma_tag("skill"@, "<skill>"@, name, rest);
    reveal_strlit("skills_instructions");
    reveal_strlit("<skills_instructions>");
    assert("<skills_instructions>"@ == seq!['<'] + "skills_instructions"@ + seq!['>']);
    lemma_tag("skills_instructions"@, "<skills_instructions>"@, name, rest);
    reveal_strlit("turn_aborted");
    reveal_strlit("<turn_aborted>");
    assert("<turn_aborted>"@ == seq!['<'] + "turn_aborted"@ + seq!['>']);
    lemma_tag("turn_aborted"@, "<turn_aborted>"@, name, rest);
    reveal_strlit("recommended_plugins");
    reveal_strlit("<recommended_plugins>");
    assert("<recommended_plugins>"@ == seq!['<'] + "recommended_plugins"@ + seq!['>']);
    lemma_tag("recommended_plugins"@, "<recommended_plugins>"@, name, rest);
    reveal_strlit("app-context");
    reveal_strlit("<app-context>");
    assert("<app-context>"@ == seq!['<'] + "app-context"@ + seq!['>']);
    lemma_tag("app-context"@, "<app-context>"@, name, rest);
    reveal_strlit("collaboration_mode");
    reveal_strlit("<collaboration_mode>");
    assert("<collaboration_mode>"@ == seq!['<'] + "collaboration_mode"@ + seq!['>']);
    lemma_tag("collaboration_mode"@, "<collaboration_mode>"@, name, rest);
    reveal_strlit("# AGENTS.md instructions for ");
    let heading = "# AGENTS.md instructions for "@;
    let whole = seq!['<'] + name + seq!['>'] + rest;
    if heading.is_prefix_of(rest) {
        assert(rest.subrange(0, heading.len() as int)[0] == heading[0]);
    }
    if heading.is_prefix_of(whole) {
        assert(whole.subrange(0, heading.len() as int)[0] == heading[0]);
    }
}

/// A tag opens a text exactly when it has the name of the one that opens it.
proof fn lemma_tag(tag: Seq<char>, opening: Seq<char>, name: Seq<char>, rest: Seq<char>)
    requires
        opening == seq!['<'] + tag + seq!['>'],
        forall|i: int| 0 <= i < tag.len() ==> #[trigger] tag[i] != '>',
        !name.contains('>'),
    ensures
        opening.is_prefix_of(seq!['<'] + name + seq!['>'] + rest) <==> name == tag,
        opening.is_prefix_of(rest) ==> rest.len() > 0 && rest[0] == '<',
{
    let whole = seq!['<'] + name + seq!['>'] + rest;
    let n = opening.len() as int;
    assert forall|i: int| 0 <= i < name.len() implies #[trigger] name[i] != '>' by {
        assert(name.contains(name[i]));
    }
    if name == tag {
        assert(whole.subrange(0, n) == opening);
    }
    if opening.is_prefix_of(whole) {
        assert(opening == whole.subrange(0, n));
        assert(opening[n - 1] == '>');
        if tag.len() < name.len() {
            assert(whole[n - 1] == name[n - 2]);
        } else if tag.len() > name.len() {
            assert(opening[name.len() as int + 1] == whole[name.len() as int + 1]);
            assert(opening[name.len() as int + 1] == tag[name.len() as int]);
        }
        assert forall|i: int| 0 <= i < tag.len() implies #[trigger] tag[i] == name[i] by {
            assert(opening[i + 1] == whole[i + 1]);
        }
        assert(name == tag);
    }
    if opening.is_prefix_of(rest) {
        assert(rest.subrange(0, n)[0] == opening[0]);
    }
}

/// A literal that is never closed runs to the end, and an escape that is not known stands
/// for the character behind the backslash.
pub proof fn law_open_literals_and_unknown_escapes(text: Seq<char>, quote: char, ch: char)
    requires
        quote == '"' || quote == '\'' || quote == '`',
        ch != 'n' && ch != 't' && ch != 'r' && ch != '0',
    ensures
        !blank(text) ==> literals(seq![quote] + quoted(text, quote)) == seq![text],
        literal(seq!['\\', ch] + text, quote).0 == seq![ch] + literal(text, quote).0,
        literal(seq!['\\', ch] + text, quote).1 == literal(text, quote).1,
{
    lemma_open_literal(text, quote);
    let source = seq![quote] + quoted(text, quote);
    assert(source.skip(1) == quoted(text, quote));
    assert(seq![text] + literals(Seq::<char>::empty()) == seq![text]);
    assert((seq!['\\', ch] + text).skip(2) == text);
}

proof fn lemma_open_literal(text: Seq<char>, quote: char)
    requires
        quote == '"' || quote == '\'' || quote == '`',
    ensures
        literal(quoted(text, quote), quote) == (text, Seq::<char>::empty()),
    decreases text.len(),
{
    let source = quoted(text, quote);
    if text.len() == 0 {
        assert(text == Seq::<char>::empty());
    } else {
        let rest = text.drop_first();
        lemma_open_literal(rest, quote);
        assert(seq![text[0]] + rest == text);
        if source[0] == '\\' {
            assert(source.skip(2) == quoted(rest, quote));
        } else {
            assert(source.skip(1) == quoted(rest, quote));
        }
    }
}

} // verus!
