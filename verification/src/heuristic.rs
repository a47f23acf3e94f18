//! Tidying a selection that could not be found in any transcript.
//!
//! This is the only guesswork in the library, and it is reached only once the
//! transcript has been ruled out. The caller says so on stderr and exits
//! non-zero.
//!
//! Two things happen here, and they are worth telling apart:
//!
//! * Removing gutters and the indentation the TUI added is unambiguous. The
//!   renderer put those columns there and nothing is lost by taking them away.
//! * Joining a row with the one below it is a guess. Whether a line ending was
//!   the renderer running out of width or something the author typed cannot be
//!   told from the rendered text — that is the whole reason transcripts are
//!   read. Prose wants the join; code and log output are damaged by it.
//!
//! So joining is a caller's decision, and structural cleanup always happens.

use vstd::prelude::*;

use crate::normalize::{strip_diff_line_numbers, without_diff_numbers};
use crate::text::{
    ascii_digit, blank, bounds_match, chars_of, chomp, drop_white_space, is_ascii_digit, is_white_space,
    join, law_a_line_ends_at_its_line_feed, law_joining_adds_up, law_lines_hold_no_line_feeds,
    leading, lemma_filter_nothing, lemma_leading, lemma_leading_bounds, lemma_trim_end,
    lemma_trim_end_keeps, line_bounds, lines, lines_inclusive, push_chars,
    trim_end, white_space,
};

verus! {

// Rows

/// The glyphs that the TUI draws beside content.
pub open spec fn gutter_glyph(ch: char) -> bool {
    ||| ch == '•' || ch == '·' || ch == '›' || ch == '‹'
    ||| ch == '▌' || ch == '⏺' || ch == '↳' || ch == '⎿'
    ||| '\u{2500}' <= ch <= '\u{259F}'
}

/// A character that may stand before the content of a row.
pub open spec fn decoration(ch: char) -> bool {
    white_space(ch) || gutter_glyph(ch)
}

/// A rendered row with its decoration removed: the columns before the content,
/// gutter glyphs among them, and the content.
pub struct RowView {
    pub indent: int,
    pub text: Seq<char>,
}

/// The row of a rendered line. Both `"• text"` and `"  text"` land on the same
/// column, so a wrapped row lines up with the row it continues.
pub open spec fn row_of(line: Seq<char>) -> RowView {
    let indent = leading(line, |ch: char| decoration(ch)) as int;
    RowView { indent, text: trim_end(line.skip(indent)) }
}

/// The rows of a selection.
pub open spec fn rows_of(selection: Seq<char>) -> Seq<RowView> {
    lines(without_diff_numbers(selection)).map_values(|line: Seq<char>| row_of(line))
}

/// The smaller one of two columns, of which the first may be missing.
pub open spec fn shallower(a: Option<int>, b: int) -> int {
    match a {
        Some(a) => if a <= b {
            a
        } else {
            b
        },
        None => b,
    }
}

/// The column of the shallowest row that is not blank, if there is one.
pub open spec fn left_edge(all: Seq<RowView>) -> Option<int>
    decreases all.len(),
{
    if all.len() == 0 {
        None
    } else if all.last().text.len() == 0 {
        left_edge(all.drop_last())
    } else {
        Some(shallower(left_edge(all.drop_last()), all.last().indent))
    }
}

/// The last row that is not blank, if there is one.
pub open spec fn last_content(all: Seq<RowView>) -> Option<RowView>
    decreases all.len(),
{
    if all.len() == 0 {
        None
    } else if all.last().text.len() == 0 {
        last_content(all.drop_last())
    } else {
        Some(all.last())
    }
}

/// A text opens like a list item: a bullet or a number with a dot or bracket,
/// and a space behind it.
pub open spec fn list_item(text: Seq<char>) -> bool {
    if text.len() > 0 && (text[0] == '-' || text[0] == '*' || text[0] == '+') {
        text.len() > 1 && text[1] == ' '
    } else {
        let n = leading(text, |ch: char| ascii_digit(ch)) as int;
        n > 0 && n + 1 < text.len() && (text[n] == '.' || text[n] == ')') && text[n + 1] == ' '
    }
}

/// The letters of the Latin script.
pub open spec fn latin_letter(ch: char) -> bool {
    ||| 'A' <= ch <= 'Z' || 'a' <= ch <= 'z'
    ||| ch == '\u{AA}' || ch == '\u{BA}'
    ||| '\u{C0}' <= ch <= '\u{D6}'
    ||| '\u{D8}' <= ch <= '\u{F6}'
    ||| '\u{F8}' <= ch <= '\u{2AF}'
    ||| '\u{1E00}' <= ch <= '\u{1EFF}'
    ||| '\u{2C60}' <= ch <= '\u{2C7F}'
    ||| '\u{A722}' <= ch <= '\u{A787}'
    ||| '\u{A78B}' <= ch <= '\u{A7CA}'
    ||| '\u{FB00}' <= ch <= '\u{FB06}'
}

/// The combining marks that a letter may be spelled with.
pub open spec fn combining_mark(ch: char) -> bool {
    '\u{300}' <= ch <= '\u{36F}'
}

/// A character that Latin text is made of, marks left aside: ASCII, and the Latin
/// letters beyond it.
pub open spec fn latin(ch: char) -> bool {
    ch <= '\u{7F}' || latin_letter(ch)
}

/// A text ends in a Latin letter, with or without marks on it.
pub open spec fn ends_in_latin_letter(text: Seq<char>) -> bool
    decreases text.len(),
{
    &&& text.len() > 0
    &&& latin_letter(text.last()) || (combining_mark(text.last()) && ends_in_latin_letter(
        text.drop_last(),
    ))
}

/// Whether joining two texts should put a space between them.
///
/// A wrap between Latin words consumes the space that was there; Japanese wraps
/// consume nothing. Going by the characters either side of the break gets this
/// right except for a single Latin word too long for the pane, which is
/// re-joined with a space that does not belong. The transcript settles that
/// case, which is why this is only ever the fallback.
pub open spec fn spaced(previous: Seq<char>, next: Seq<char>) -> bool {
    &&& previous.len() > 0 && next.len() > 0
    &&& latin(previous.last()) || ends_in_latin_letter(previous)
    &&& latin(next[0])
}

/// A row looks like a continuation of the one above it. A list marker starts
/// something new, and text that steps to the right is structure rather than an
/// overflowing line.
pub open spec fn continues(previous: RowView, next: RowView) -> bool {
    !list_item(next.text) && next.indent <= previous.indent
}

/// What stands between two rows: a blank line if there was one, nothing or a
/// space if the rows are joined, and a line break otherwise.
pub open spec fn glue(previous: RowView, blank_between: bool, next: RowView, join: bool) -> Seq<
    char,
> {
    if blank_between {
        seq!['\n', '\n']
    } else if join && continues(previous, next) {
        if spaced(previous.text, next.text) {
            seq![' ']
        } else {
            Seq::empty()
        }
    } else {
        seq!['\n']
    }
}

/// A number of spaces.
pub open spec fn spaces(n: int) -> Seq<char> {
    Seq::new(n as nat, |i: int| ' ')
}

/// The rows with their decoration removed. The shallowest row sets the left edge:
/// subtracting it removes the indent the TUI added while keeping indentation that
/// belongs to the content.
pub open spec fn tidied(all: Seq<RowView>, edge: int, join: bool) -> Seq<char>
    decreases all.len(),
{
    if all.len() == 0 {
        Seq::empty()
    } else {
        let init = all.drop_last();
        let row = all.last();
        if row.text.len() == 0 {
            tidied(init, edge, join)
        } else {
            match last_content(init) {
                None => spaces(row.indent - edge) + row.text,
                Some(previous) => {
                    let between = glue(previous, init.last().text.len() == 0, row, join);
                    let indent = if between.len() > 0 && between.last() == '\n' {
                        spaces(row.indent - edge)
                    } else {
                        Seq::empty()
                    };
                    tidied(init, edge, join) + between + indent + row.text
                },
            }
        }
    }
}

/// A selection with its decoration removed.
pub open spec fn rewrapped(selection: Seq<char>, join: bool) -> Seq<char> {
    let all = rows_of(selection);
    let edge = match left_edge(all) {
        Some(edge) => edge,
        None => 0,
    };
    tidied(all, edge, join)
}

/// Whether a character is a gutter glyph.
fn is_gutter_glyph(ch: char) -> (yes: bool)
    ensures
        yes == gutter_glyph(ch),
{
    matches!(ch, '•' | '·' | '›' | '‹' | '▌' | '⏺' | '↳' | '⎿')
        || matches!(ch, '\u{2500}'..='\u{259F}')
}

/// A row as a range of the characters of a selection.
struct Row {
    indent: usize,
    from: usize,
    to: usize,
}

impl Row {
    spec fn in_text(self, chars: Seq<char>) -> bool {
        self.from <= self.to <= chars.len()
    }

    spec fn row(self, chars: Seq<char>) -> RowView {
        RowView {
            indent: self.indent as int,
            text: chars.subrange(self.from as int, self.to as int),
        }
    }
}

/// Strip leading whitespace and any gutter glyph from the line `from..to`.
fn strip_gutter(chars: &Vec<char>, from: usize, to: usize) -> (row: Row)
    requires
        from <= to <= chars@.len(),
    ensures
        row.in_text(chars@),
        row.row(chars@) == row_of(chars@.subrange(from as int, to as int)),
{
    let ghost line = chars@.subrange(from as int, to as int);
    let mut start: usize = from;
    while start < to && (is_white_space(chars[start]) || is_gutter_glyph(chars[start]))
        invariant
            from <= start <= to <= chars@.len(),
            forall|i: int| from <= i < start ==> decoration(#[trigger] chars@[i]),
        decreases to - start,
    {
        start = start + 1;
    }
    let end: usize = drop_white_space(chars, start, to);
    proof {
        let class = |ch: char| decoration(ch);
        assert forall|i: int| 0 <= i < start - from implies class(#[trigger] line[i]) by {
            assert(line[i] == chars@[from + i]);
        }
        if start < to {
            assert(line[start - from] == chars@[start as int]);
        }
        lemma_leading(line, class, start - from);
        assert(line.skip(start - from) == chars@.subrange(start as int, to as int));
    }
    Row { indent: start - from, from: start, to: end }
}

/// Whether the content of a row opens like a list item.
fn starts_list_item(chars: &Vec<char>, from: usize, to: usize) -> (yes: bool)
    requires
        from <= to <= chars@.len(),
    ensures
        yes == list_item(chars@.subrange(from as int, to as int)),
{
    let ghost text = chars@.subrange(from as int, to as int);
    if from < to && (chars[from] == '-' || chars[from] == '*' || chars[from] == '+') {
        return to - from > 1 && chars[from + 1] == ' ';
    }
    let mut end: usize = from;
    while end < to && is_ascii_digit(chars[end])
        invariant
            from <= end <= to <= chars@.len(),
            forall|i: int| from <= i < end ==> ascii_digit(#[trigger] chars@[i]),
        decreases to - end,
    {
        end = end + 1;
    }
    proof {
        let class = |ch: char| ascii_digit(ch);
        assert forall|i: int| 0 <= i < end - from implies class(#[trigger] text[i]) by {
            assert(text[i] == chars@[from + i]);
        }
        lemma_leading(text, class, end - from);
    }
    end > from && to - end > 1 && (chars[end] == '.' || chars[end] == ')') && chars[end + 1] == ' '
}

/// Whether a character is a letter of the Latin script.
fn is_latin_letter(ch: char) -> (yes: bool)
    ensures
        yes == latin_letter(ch),
{
    matches!(ch, 'A'..='Z' | 'a'..='z' | '\u{AA}' | '\u{BA}')
        || matches!(ch, '\u{C0}'..='\u{D6}' | '\u{D8}'..='\u{F6}' | '\u{F8}'..='\u{2AF}')
        || matches!(ch, '\u{1E00}'..='\u{1EFF}' | '\u{2C60}'..='\u{2C7F}')
        || matches!(ch, '\u{A722}'..='\u{A787}' | '\u{A78B}'..='\u{A7CA}' | '\u{FB00}'..='\u{FB06}')
}

/// Whether a character is one that Latin text is made of, marks left aside.
fn is_latin(ch: char) -> (yes: bool)
    ensures
        yes == latin(ch),
{
    ch <= '\u{7F}' || is_latin_letter(ch)
}

/// Whether the text `from..to` ends in a Latin letter, with or without marks on it.
fn has_latin_end(chars: &Vec<char>, from: usize, to: usize) -> (yes: bool)
    requires
        from <= to <= chars@.len(),
    ensures
        yes == ends_in_latin_letter(chars@.subrange(from as int, to as int)),
{
    let mut at: usize = to;
    while at > from && matches!(chars[at - 1], '\u{300}'..='\u{36F}')
        invariant
            from <= at <= to <= chars@.len(),
            ends_in_latin_letter(chars@.subrange(from as int, to as int)) == ends_in_latin_letter(
                chars@.subrange(from as int, at as int),
            ),
        decreases at,
    {
        assert(chars@.subrange(from as int, at as int).drop_last() == chars@.subrange(
            from as int,
            at - 1,
        ));
        at = at - 1;
    }
    at > from && is_latin_letter(chars[at - 1])
}

/// Whether joining two rows should put a space between them.
fn needs_space(chars: &Vec<char>, previous: &Row, next: &Row) -> (yes: bool)
    requires
        previous.in_text(chars@),
        next.in_text(chars@),
    ensures
        yes == spaced(previous.row(chars@).text, next.row(chars@).text),
{
    if previous.from >= previous.to || next.from >= next.to {
        return false;
    }
    (is_latin(chars[previous.to - 1]) || has_latin_end(chars, previous.from, previous.to))
        && is_latin(chars[next.from])
}

/// Append a number of spaces to a string.
fn push_spaces(out: &mut String, n: usize)
    ensures
        final(out)@ == old(out)@ + spaces(n as int),
{
    let ghost before = out@;
    let mut i: usize = 0;
    assert(before + spaces(0) == before);
    while i < n
        invariant
            i <= n,
            out@ == before + spaces(i as int),
        decreases n - i,
    {
        out.push(' ');
        i = i + 1;
        assert(spaces(i as int) == spaces(i - 1).push(' '));
    }
}

/// The rows of a text that was split into lines.
spec fn rows_match(chars: Seq<char>, rows: Seq<Row>, all: Seq<RowView>) -> bool {
    &&& rows.len() == all.len()
    &&& forall|i: int|
        0 <= i < rows.len() ==> (#[trigger] rows[i]).in_text(chars) && rows[i].row(chars) == all[i]
}

/// The rows of a text, with their decoration removed.
fn strip_rows(chars: &Vec<char>) -> (rows: Vec<Row>)
    ensures
        rows_match(
            chars@,
            rows@,
            lines(chars@).map_values(|line: Seq<char>| row_of(line)),
        ),
{
    let bounds = line_bounds(chars);
    let ghost split = lines_inclusive(chars@);
    let ghost all = lines(chars@).map_values(|line: Seq<char>| row_of(line));
    let mut rows: Vec<Row> = Vec::new();
    let mut i: usize = 0;
    while i < bounds.len()
        invariant
            i <= bounds@.len(),
            split == lines_inclusive(chars@),
            bounds_match(chars@, split, bounds@),
            all == lines(chars@).map_values(|line: Seq<char>| row_of(line)),
            rows@.len() == i,
            forall|k: int|
                0 <= k < i ==> (#[trigger] rows@[k]).in_text(chars@) && rows@[k].row(chars@)
                    == all[k],
        decreases bounds@.len() - i,
    {
        let (from, whole) = bounds[i];
        let mut to: usize = whole;
        if to > from && chars[to - 1] == '\n' {
            to = to - 1;
            if to > from && chars[to - 1] == '\r' {
                to = to - 1;
            }
        }
        proof {
            let line = split[i as int];
            assert(line == chars@.subrange(from as int, whole as int));
            if whole > from {
                assert(line.last() == chars@[whole - 1]);
            }
            if whole > from + 1 {
                assert(line.drop_last().last() == chars@[whole - 2]);
            }
            assert(chomp(line) == chars@.subrange(from as int, to as int));
            assert(all[i as int] == row_of(chomp(line)));
        }
        rows.push(strip_gutter(chars, from, to));
        i = i + 1;
    }
    rows
}

/// The column of the shallowest row that is not blank, if there is one.
fn find_left_edge(chars: &Vec<char>, rows: &Vec<Row>, Ghost(all): Ghost<Seq<RowView>>) -> (edge:
    Option<usize>)
    requires
        rows_match(chars@, rows@, all),
    ensures
        match edge {
            Some(edge) => left_edge(all) == Some(edge as int),
            None => left_edge(all) is None,
        },
{
    let mut edge: Option<usize> = None;
    let mut i: usize = 0;
    assert(all.take(0) == Seq::<RowView>::empty());
    while i < rows.len()
        invariant
            i <= rows@.len(),
            rows_match(chars@, rows@, all),
            match edge {
                Some(edge) => left_edge(all.take(i as int)) == Some(edge as int),
                None => left_edge(all.take(i as int)) is None,
            },
        decreases rows@.len() - i,
    {
        let row = &rows[i];
        proof {
            assert(all.take(i + 1).drop_last() == all.take(i as int));
            assert(all.take(i + 1).last() == row.row(chars@));
        }
        if row.from < row.to {
            edge = match edge {
                Some(edge) if edge <= row.indent => Some(edge),
                _ => Some(row.indent),
            };
        }
        i = i + 1;
    }
    assert(all.take(all.len() as int) == all);
    edge
}

/// No row that is not blank is left of the left edge.
proof fn lemma_left_edge(all: Seq<RowView>, i: int)
    requires
        0 <= i < all.len(),
        all[i].text.len() > 0,
    ensures
        left_edge(all) matches Some(edge) && edge <= all[i].indent,
    decreases all.len(),
{
    if i < all.len() - 1 {
        assert(all.drop_last()[i] == all[i]);
        lemma_left_edge(all.drop_last(), i);
    }
}

/// Strip TUI decoration from a selection.
///
/// With `join_wrapped`, rows that look like a continuation of the row above are
/// run together, which un-wraps prose at the cost of mangling anything whose
/// line breaks were meaningful.
pub fn rewrap(selection: &str, join_wrapped: bool) -> (tidy: String)
    ensures
        tidy@ == rewrapped(selection@, join_wrapped),
{
    let plain = strip_diff_line_numbers(selection);
    let chars = chars_of(plain.as_str());
    let rows = strip_rows(&chars);
    let ghost all = rows_of(selection@);
    let base: usize = match find_left_edge(&chars, &rows, Ghost(all)) {
        Some(edge) => edge,
        None => 0,
    };
    let mut out = String::new();
    let mut previous: Option<usize> = None;
    let mut blank_seen = false;
    let mut i: usize = 0;
    assert(all.take(0) == Seq::<RowView>::empty());
    while i < rows.len()
        invariant
            i <= rows@.len(),
            rows_match(chars@, rows@, all),
            base == (match left_edge(all) {
                Some(edge) => edge,
                None => 0,
            }),
            out@ == tidied(all.take(i as int), base as int, join_wrapped),
            match previous {
                Some(p) => p < i && last_content(all.take(i as int)) == Some(all[p as int]),
                None => last_content(all.take(i as int)) is None,
            },
            blank_seen == (previous is Some && i > 0 && all[i - 1].text.len() == 0),
        decreases rows@.len() - i,
    {
        let row = &rows[i];
        let ghost init = all.take(i as int);
        proof {
            assert(all.take(i + 1).drop_last() == init);
            assert(all.take(i + 1).last() == row.row(chars@));
            assert(all[i as int] == row.row(chars@));
            if i > 0 {
                assert(init.last() == all[i - 1]);
            }
        }
        if row.from == row.to {
            blank_seen = previous.is_some();
        } else {
            proof {
                lemma_left_edge(all, i as int);
            }
            let indent: usize = row.indent - base;
            match previous {
                None => {
                    proof {
                        law_blank_rows_come_to_nothing(init, base as int, join_wrapped);
                    }
                    push_spaces(&mut out, indent);
                    assert(out@ == spaces(indent as int));
                },
                Some(p) => {
                    let above = &rows[p];
                    if blank_seen {
                        out.push('\n');
                        out.push('\n');
                        push_spaces(&mut out, indent);
                    } else if join_wrapped && !starts_list_item(&chars, row.from, row.to)
                        && row.indent <= above.indent {
                        if needs_space(&chars, above, row) {
                            out.push(' ');
                        }
                    } else {
                        out.push('\n');
                        push_spaces(&mut out, indent);
                    }
                    proof {
                        let between = glue(all[p as int], blank_seen, all[i as int], join_wrapped);
                        let before = tidied(init, base as int, join_wrapped);
                        let indented = if between.len() > 0 && between.last() == '\n' {
                            spaces(indent as int)
                        } else {
                            Seq::empty()
                        };
                        assert(out@ == before + between + indented);
                    }
                },
            }
            push_chars(&mut out, &chars, row.from, row.to);
            previous = Some(i);
            blank_seen = false;
        }
        i = i + 1;
    }
    assert(all.take(all.len() as int) == all);
    out
}

// Laws

/// A gutter and an indent of the same width line up: whatever decoration stands
/// before a content, its row has the same column and the same text.
pub proof fn law_gutters_and_indents_line_up(a: Seq<char>, b: Seq<char>, content: Seq<char>)
    requires
        a.len() == b.len(),
        forall|i: int| 0 <= i < a.len() ==> decoration(#[trigger] a[i]),
        forall|i: int| 0 <= i < b.len() ==> decoration(#[trigger] b[i]),
    ensures
        row_of(a + content) == row_of(b + content),
{
    let class = |ch: char| decoration(ch);
    lemma_leading_bounds(content, class);
    let n = leading(content, class) as int;
    assert forall|i: int| 0 <= i < a.len() + n implies class(#[trigger] (a + content)[i]) by {
        if i >= a.len() {
            assert(class(content[i - a.len()]));
        }
    }
    assert forall|i: int| 0 <= i < b.len() + n implies class(#[trigger] (b + content)[i]) by {
        if i >= b.len() {
            assert(class(content[i - b.len()]));
        }
    }
    lemma_leading(a + content, class, a.len() + n);
    lemma_leading(b + content, class, b.len() + n);
    assert((a + content).skip(a.len() + n) == (b + content).skip(b.len() + n));
}

/// Rows that are all blank come to nothing.
pub proof fn law_blank_rows_come_to_nothing(all: Seq<RowView>, edge: int, join: bool)
    requires
        last_content(all) is None,
    ensures
        tidied(all, edge, join) == Seq::<char>::empty(),
    decreases all.len(),
{
    if all.len() > 0 {
        law_blank_rows_come_to_nothing(all.drop_last(), edge, join);
    }
}

/// The lines that cleaning leaves: the content of each row that is not blank, at
/// its own indentation, and one empty line where rows were blank in between.
pub open spec fn clean_lines(all: Seq<RowView>, edge: int) -> Seq<Seq<char>>
    decreases all.len(),
{
    if all.len() == 0 {
        Seq::empty()
    } else {
        let init = all.drop_last();
        let row = all.last();
        let before = clean_lines(init, edge);
        let line = spaces(row.indent - edge) + row.text;
        if row.text.len() == 0 {
            before
        } else if last_content(init) is Some && init.last().text.len() == 0 {
            before.push(Seq::empty()).push(line)
        } else {
            before.push(line)
        }
    }
}

/// Without joining, every row that is not blank stays on a line of its own, and a
/// blank line stays between those that had one.
pub proof fn law_clean_keeps_line_breaks(all: Seq<RowView>, edge: int)
    ensures
        tidied(all, edge, false) == join(clean_lines(all, edge), seq!['\n']),
        clean_lines(all, edge).len() == 0 <==> last_content(all) is None,
    decreases all.len(),
{
    if all.len() > 0 {
        let init = all.drop_last();
        let row = all.last();
        law_clean_keeps_line_breaks(init, edge);
        if row.text.len() > 0 {
            let before = clean_lines(init, edge);
            let line = spaces(row.indent - edge) + row.text;
            let feed = seq!['\n'];
            assert(before.push(line).drop_last() == before);
            if let Some(previous) = last_content(init) {
                if init.last().text.len() == 0 {
                    let gap = before.push(Seq::<char>::empty());
                    assert(gap.drop_last() == before);
                    assert(gap.push(line).drop_last() == gap);
                    assert(join(gap, feed) == join(before, feed) + feed);
                    assert(seq!['\n', '\n'] == feed + feed);
                    assert(tidied(all, edge, false) == join(gap, feed) + feed + line);
                } else {
                    assert(tidied(all, edge, false) == join(before, feed) + feed + line);
                }
            } else {
                assert(before.push(line)[0] == line);
            }
        }
    }
}

/// Joined or not, a list item and a row that steps to the right start a line of
/// their own.
pub proof fn law_structure_is_never_joined(
    previous: RowView,
    blank_between: bool,
    next: RowView,
    join: bool,
)
    requires
        list_item(next.text) || next.indent > previous.indent,
    ensures
        glue(previous, blank_between, next, join).len() > 0,
        glue(previous, blank_between, next, join).last() == '\n',
{
}

/// Repeated blank rows are as good as one.
pub proof fn law_repeated_blank_rows_collapse(
    before: Seq<RowView>,
    first: RowView,
    second: RowView,
    after: Seq<RowView>,
    edge: int,
    join: bool,
)
    requires
        first.text.len() == 0,
        second.text.len() == 0,
    ensures
        tidied(before.push(first).push(second) + after, edge, join) == tidied(
            before.push(first) + after,
            edge,
            join,
        ),
        last_content(before.push(first).push(second) + after) == last_content(
            before.push(first) + after,
        ),
    decreases after.len(),
{
    let twice = before.push(first).push(second);
    let once = before.push(first);
    if after.len() == 0 {
        assert(twice + after == twice);
        assert(once + after == once);
        assert(twice.drop_last() == once);
    } else {
        let init = after.drop_last();
        law_repeated_blank_rows_collapse(before, first, second, init, edge, join);
        assert((twice + after).drop_last() == twice + init);
        assert((once + after).drop_last() == once + init);
        assert((twice + init).last().text.len() == 0 <==> (once + init).last().text.len() == 0);
    }
}

/// The contents of all rows in a row.
pub open spec fn row_texts(all: Seq<RowView>) -> Seq<char>
    decreases all.len(),
{
    if all.len() == 0 {
        Seq::empty()
    } else {
        row_texts(all.drop_last()) + all.last().text
    }
}

/// Tidying changes spaces and line breaks and nothing else: every other character
/// of the contents of the rows is kept, in order.
pub proof fn law_tidying_keeps_the_text(all: Seq<RowView>, edge: int, join: bool)
    ensures
        tidied(all, edge, join).filter(|ch: char| ch != ' ' && ch != '\n') == row_texts(all).filter(
            |ch: char| ch != ' ' && ch != '\n',
        ),
    decreases all.len(),
{
    let keep = |ch: char| ch != ' ' && ch != '\n';
    if all.len() > 0 {
        let init = all.drop_last();
        let row = all.last();
        law_tidying_keeps_the_text(init, edge, join);
        Seq::filter_distributes_over_add(row_texts(init), row.text, keep);
        if row.text.len() == 0 {
            assert(row_texts(init) + row.text == row_texts(init));
        } else {
            let pad = spaces(row.indent - edge);
            lemma_filter_nothing(pad, keep);
            match last_content(init) {
                None => {
                    law_blank_rows_come_to_nothing(init, edge, join);
                    Seq::filter_distributes_over_add(pad, row.text, keep);
                },
                Some(previous) => {
                    let between = glue(previous, init.last().text.len() == 0, row, join);
                    let indent = if between.len() > 0 && between.last() == '\n' {
                        pad
                    } else {
                        Seq::empty()
                    };
                    let front = tidied(init, edge, join);
                    lemma_filter_nothing(between, keep);
                    lemma_filter_nothing(indent, keep);
                    Seq::filter_distributes_over_add(front + between + indent, row.text, keep);
                    Seq::filter_distributes_over_add(front + between, indent, keep);
                    Seq::filter_distributes_over_add(front, between, keep);
                },
            }
        }
    }
}

/// Filtering by a narrower class needs no filtering by a wider one before it.
proof fn lemma_filter_twice(
    text: Seq<char>,
    wide: spec_fn(char) -> bool,
    narrow: spec_fn(char) -> bool,
)
    requires
        forall|ch: char| #[trigger] narrow(ch) ==> wide(ch),
    ensures
        text.filter(wide).filter(narrow) == text.filter(narrow),
    decreases text.len(),
{
    reveal(Seq::filter);
    if text.len() > 0 {
        let front = text.drop_last();
        lemma_filter_twice(front, wide, narrow);
        if wide(text.last()) {
            assert(text.filter(wide).drop_last() == front.filter(wide));
        }
    }
}

/// A text without its white space.
pub open spec fn without_white_space(text: Seq<char>) -> Seq<char> {
    text.filter(|ch: char| !white_space(ch))
}

/// How many line feeds a text holds.
pub open spec fn line_feeds(text: Seq<char>) -> nat {
    text.filter(|ch: char| ch == '\n').len()
}

/// In how many places a text holds two line feeds next to each other.
pub open spec fn blank_lines(text: Seq<char>) -> nat
    decreases text.len(),
{
    if text.len() < 2 {
        0
    } else {
        let here: nat = if text[text.len() - 2] == '\n' && text.last() == '\n' {
            1
        } else {
            0
        };
        blank_lines(text.drop_last()) + here
    }
}

/// A text ends in no white space and holds no three line feeds next to each other.
pub open spec fn neat(text: Seq<char>) -> bool {
    &&& text.len() > 0 ==> !white_space(text.last())
    &&& forall|i: int|
        0 <= i < text.len() - 2 ==> !((#[trigger] text[i]) == '\n' && text[i + 1] == '\n' && text[i
            + 2] == '\n')
}

/// A row with one line of text that ends in no white space.
spec fn single_line(row: RowView) -> bool {
    !row.text.contains('\n') && (row.text.len() > 0 ==> !white_space(row.text.last()))
}

/// Every row of a selection is a single line.
proof fn lemma_rows_are_single_lines(selection: Seq<char>, i: int)
    requires
        0 <= i < rows_of(selection).len(),
    ensures
        single_line(rows_of(selection)[i]),
{
    let plain = without_diff_numbers(selection);
    let line = lines(plain)[i];
    law_lines_hold_no_line_feeds(plain, i);
    lemma_leading_bounds(line, |ch: char| decoration(ch));
    let row = row_of(line);
    let content = line.skip(row.indent);
    assert(rows_of(selection)[i] == row);
    if content.len() > 0 {
        assert(!decoration(content[0]));
        lemma_trim_end_keeps(content, 0);
        assert forall|k: int| 0 <= k < row.text.len() implies #[trigger] row.text[k] != '\n' by {
            assert(row.text[k] == content[k]);
            assert(content[k] == line[row.indent + k]);
        }
    }
}

/// Blank lines add up where no pair of line feeds stands across the seam.
proof fn lemma_blank_lines_add_up(a: Seq<char>, b: Seq<char>)
    requires
        a.len() > 0 && b.len() > 0 ==> a.last() != '\n' || b[0] != '\n',
    ensures
        blank_lines(a + b) == blank_lines(a) + blank_lines(b),
    decreases b.len(),
{
    if b.len() == 0 {
        assert(a + b == a);
    } else {
        lemma_blank_lines_add_up(a, b.drop_last());
        assert((a + b).drop_last() == a + b.drop_last());
        if b.len() == 1 && a.len() > 0 {
            assert((a + b)[(a + b).len() - 2] == a.last());
        }
    }
}

/// A text without line feeds has no blank lines.
proof fn lemma_no_blank_lines(text: Seq<char>)
    requires
        !text.contains('\n'),
    ensures
        blank_lines(text) == 0,
        line_feeds(text) == 0,
    decreases text.len(),
{
    assert forall|i: int| 0 <= i < text.len() implies #[trigger] text[i] != '\n' by {
        assert(text.contains(text[i]));
    }
    lemma_filter_nothing(text, |ch: char| ch == '\n');
    if text.len() >= 2 {
        let front = text.drop_last();
        assert forall|i: int| 0 <= i < front.len() implies #[trigger] front[i] != '\n' by {
            assert(front[i] == text[i]);
        }
        lemma_no_blank_lines(front);
    }
}

/// What one more row of text does to the line feeds of a neat text: they grow by
/// those of what stands between.
proof fn lemma_next_row(front: Seq<char>, between: Seq<char>, rest: Seq<char>)
    requires
        front.len() > 0,
        neat(front),
        between == seq!['\n', '\n'] || between == seq!['\n'] || between == seq![' ']
            || between.len() == 0,
        rest.len() > 0,
        !rest.contains('\n'),
        !white_space(rest.last()),
    ensures
        neat(front + between + rest),
        line_feeds(front + between + rest) == line_feeds(front) + line_feeds(between),
        blank_lines(front + between + rest) == blank_lines(front) + blank_lines(between),
{
    let feed = |ch: char| ch == '\n';
    let whole = front + between + rest;
    assert forall|i: int| 0 <= i < rest.len() implies #[trigger] rest[i] != '\n' by {
        assert(rest.contains(rest[i]));
    }
    lemma_no_blank_lines(rest);
    Seq::filter_distributes_over_add(front + between, rest, feed);
    Seq::filter_distributes_over_add(front, between, feed);
    lemma_blank_lines_add_up(front, between);
    lemma_blank_lines_add_up(front + between, rest);
    let n = front.len() as int;
    assert forall|i: int| 0 <= i < whole.len() - 2 implies !((#[trigger] whole[i]) == '\n' && whole[i
        + 1] == '\n' && whole[i + 2] == '\n') by {
        if i + 2 < n {
            assert(front[i] == whole[i]);
            assert(front[i + 1] == whole[i + 1]);
            assert(front[i + 2] == whole[i + 2]);
        } else if i < n {
            assert(whole[n - 1] == front.last());
        } else {
            assert(whole[i + 2] == rest[i + 2 - n - between.len()]);
        }
    }
}

/// Joining rows that are single lines leaves blank lines where they were.
proof fn lemma_joining(all: Seq<RowView>, edge: int)
    requires
        forall|i: int| 0 <= i < all.len() ==> single_line(#[trigger] all[i]),
    ensures
        last_content(all) is Some ==> tidied(all, edge, true).len() > 0,
        last_content(all) is Some ==> tidied(all, edge, false).len() > 0,
        neat(tidied(all, edge, true)),
        neat(tidied(all, edge, false)),
        line_feeds(tidied(all, edge, true)) <= line_feeds(tidied(all, edge, false)),
        blank_lines(tidied(all, edge, true)) == blank_lines(tidied(all, edge, false)),
    decreases all.len(),
{
    if all.len() > 0 {
        let init = all.drop_last();
        let row = all.last();
        lemma_joining(init, edge);
        if row.text.len() > 0 {
            let pad = spaces(row.indent - edge);
            assert(single_line(all[all.len() - 1]));
            lemma_padded(pad, row.text);
            match last_content(init) {
                None => {
                    lemma_no_blank_lines(pad + row.text);
                },
                Some(previous) => {
                    let gap = init.last().text.len() == 0;
                    let broken = glue(previous, gap, row, false);
                    let joined = glue(previous, gap, row, true);
                    let long = tidied(init, edge, false);
                    let short = tidied(init, edge, true);
                    let none = Seq::<char>::empty();
                    assert(none + row.text == row.text);
                    lemma_next_row(long, broken, pad + row.text);
                    assert(long + broken + pad + row.text == long + broken + (pad + row.text));
                    if joined == broken {
                        lemma_next_row(short, joined, pad + row.text);
                        assert(short + joined + pad + row.text == short + joined + (pad
                            + row.text));
                    } else {
                        lemma_next_row(short, joined, row.text);
                        assert(short + joined + none + row.text == short + joined + row.text);
                        assert(!joined.contains('\n'));
                        lemma_no_blank_lines(joined);
                    }
                },
            }
        }
    }
}

/// Indenting a line of text puts no line feed into it.
proof fn lemma_padded(pad: Seq<char>, text: Seq<char>)
    requires
        forall|i: int| 0 <= i < pad.len() ==> #[trigger] pad[i] == ' ',
        text.len() > 0,
        !text.contains('\n'),
    ensures
        (pad + text).len() > 0,
        (pad + text).last() == text.last(),
        !(pad + text).contains('\n'),
{
    let whole = pad + text;
    assert forall|i: int| 0 <= i < whole.len() implies #[trigger] whole[i] != '\n' by {
        if i >= pad.len() {
            assert(text.contains(text[i - pad.len()]));
        }
    }
}

/// Joining only runs rows together. It changes no character but white space, adds
/// no line break and keeps every blank line. Joined or not, no white space trails
/// and no two blank lines follow each other.
pub proof fn law_joining_only_runs_rows_together(selection: Seq<char>)
    ensures
        without_white_space(rewrapped(selection, true)) == without_white_space(
            rewrapped(selection, false),
        ),
        line_feeds(rewrapped(selection, true)) <= line_feeds(rewrapped(selection, false)),
        blank_lines(rewrapped(selection, true)) == blank_lines(rewrapped(selection, false)),
        neat(rewrapped(selection, true)),
        neat(rewrapped(selection, false)),
{
    let all = rows_of(selection);
    let edge = match left_edge(all) {
        Some(edge) => edge,
        None => 0,
    };
    assert forall|i: int| 0 <= i < all.len() implies single_line(#[trigger] all[i]) by {
        lemma_rows_are_single_lines(selection, i);
    }
    lemma_joining(all, edge);
    law_tidying_keeps_the_text(all, edge, true);
    law_tidying_keeps_the_text(all, edge, false);
    let keep = |ch: char| ch != ' ' && ch != '\n';
    let solid = |ch: char| !white_space(ch);
    lemma_filter_twice(tidied(all, edge, true), keep, solid);
    lemma_filter_twice(tidied(all, edge, false), keep, solid);
}

/// A code point that may stand before the content of a row: white space, a bullet or
/// another glyph of the gutter, or a part of a frame.
pub open spec fn decorates(code: int) -> bool {
    ||| 0x09 <= code <= 0x0D || code == 0x20 || code == 0x85 || code == 0xA0 || code == 0x1680
    ||| 0x2000 <= code <= 0x200A || 0x2028 <= code <= 0x2029
    ||| code == 0x202F || code == 0x205F || code == 0x3000
    ||| code == 0x2022 || code == 0xB7 || code == 0x203A || code == 0x2039
    ||| code == 0x23FA || code == 0x21B3 || code == 0x23BF
    ||| 0x2500 <= code <= 0x259F
}

/// A content that fills a row: it begins with something else than decoration, ends in no
/// white space and has no line feed in it.
pub open spec fn fills_row(text: Seq<char>) -> bool {
    &&& text.len() > 0
    &&& !decorates(text[0] as int)
    &&& !white_space(text.last())
    &&& !text.contains('\n')
}

/// A row is its content at its column, whatever decoration stands before it and whatever
/// white space behind.
pub proof fn law_a_row_is_its_content(prefix: Seq<char>, text: Seq<char>, tail: Seq<char>)
    requires
        forall|i: int| 0 <= i < prefix.len() ==> decorates(#[trigger] prefix[i] as int),
        fills_row(text),
        blank(tail),
    ensures
        row_of(prefix + text + tail) == (RowView { indent: prefix.len() as int, text }),
        row_of(prefix + tail).text.len() == 0,
{
    let class = |ch: char| decoration(ch);
    let line = prefix + text + tail;
    let n = prefix.len() as int;
    assert forall|i: int| 0 <= i < n implies class(#[trigger] line[i]) by {
        assert(line[i] == prefix[i]);
        assert(decorates(prefix[i] as int));
    }
    assert(line[n] == text[0]);
    lemma_leading(line, class, n);
    let rest = text + tail;
    assert(line.skip(n) == rest);
    assert forall|i: int| text.len() <= i < rest.len() implies white_space(#[trigger] rest[i]) by {
        assert(rest[i] == tail[i - text.len()]);
    }
    assert(rest[text.len() - 1] == text.last());
    lemma_trim_end(rest, text.len() as int);
    assert(rest.take(text.len() as int) == text);
    let empty = prefix + tail;
    assert forall|i: int| 0 <= i < empty.len() implies class(#[trigger] empty[i]) by {
        if i < n {
            assert(decorates(prefix[i] as int));
        } else {
            assert(white_space(tail[i - n]));
        }
    }
    lemma_leading(empty, class, empty.len() as int);
    assert(empty.skip(empty.len() as int).len() == 0);
}

/// The selection that some lines make.
pub open spec fn on_lines(all: Seq<Seq<char>>) -> Seq<char> {
    join(all, seq!['\n'])
}

/// Contents with something before each of them.
pub open spec fn set_off(prefixes: Seq<Seq<char>>, texts: Seq<Seq<char>>) -> Seq<Seq<char>> {
    Seq::new(texts.len(), |i: int| prefixes[i] + texts[i])
}

/// Contents that fill their rows behind decoration, one line each, of which none opens like
/// a line of a diff.
pub open spec fn rendered_rows(prefixes: Seq<Seq<char>>, texts: Seq<Seq<char>>) -> bool {
    &&& prefixes.len() == texts.len()
    &&& texts.len() > 0
    &&& forall|i: int| 0 <= i < texts.len() ==> fills_row(#[trigger] texts[i])
    &&& forall|i: int|
        0 <= i < prefixes.len() ==> !(#[trigger] prefixes[i]).contains('\n')
    &&& forall|i: int, k: int|
        0 <= i < prefixes.len() && 0 <= k < prefixes[i].len() ==> decorates(
            #[trigger] prefixes[i][k] as int,
        )
    &&& without_diff_numbers(on_lines(set_off(prefixes, texts))) == on_lines(
        set_off(prefixes, texts),
    )
}

/// A content opens no list: neither a bullet nor a number with a dot or bracket, with a
/// space behind it.
pub open spec fn opens_no_list(text: Seq<char>) -> bool {
    &&& text.len() >= 2 && text[1] == ' ' ==> text[0] != '-' && text[0] != '*' && text[0] != '+'
    &&& forall|n: int|
        0 < n < text.len() - 1 && (#[trigger] text[n] == '.' || text[n] == ')') && text[n + 1]
            == ' ' ==> exists|k: int| 0 <= k < n && !('0' <= #[trigger] text[k] <= '9')
}

/// The rows of lines are the rows of each line.
proof fn lemma_rows_of_lines(all: Seq<Seq<char>>)
    requires
        all.len() > 0,
        forall|i: int| 0 <= i < all.len() ==> !(#[trigger] all[i]).contains('\n'),
        forall|i: int| 0 <= i < all.len() && all[i].len() > 0 ==> (#[trigger] all[i]).last() != '\r',
        all.last().len() > 0,
    ensures
        lines(on_lines(all)) == all,
    decreases all.len(),
{
    let line = all[0];
    law_a_line_ends_at_its_line_feed(line, Seq::empty());
    if all.len() == 1 {
        assert(all == seq![line]);
    } else {
        let rest = all.drop_first();
        assert forall|i: int| 0 <= i < rest.len() implies !(#[trigger] rest[i]).contains('\n') by {
            assert(rest[i] == all[i + 1]);
        }
        assert forall|i: int| 0 <= i < rest.len() && rest[i].len() > 0 implies (
        #[trigger] rest[i]).last() != '\r' by {
            assert(rest[i] == all[i + 1]);
        }
        lemma_rows_of_lines(rest);
        law_joining_adds_up(seq![line], rest, seq!['\n']);
        assert(seq![line] + rest == all);
        law_a_line_ends_at_its_line_feed(line, on_lines(rest));
        assert(on_lines(all) == line.push('\n') + on_lines(rest));
    }
}

/// The rows of contents behind decoration.
proof fn lemma_rendered_rows(prefixes: Seq<Seq<char>>, texts: Seq<Seq<char>>)
    requires
        rendered_rows(prefixes, texts),
    ensures
        ({
            let all = rows_of(on_lines(set_off(prefixes, texts)));
            &&& all.len() == texts.len()
            &&& forall|i: int|
                0 <= i < texts.len() ==> #[trigger] all[i] == (RowView {
                    indent: prefixes[i].len() as int,
                    text: texts[i],
                })
        }),
{
    let all = set_off(prefixes, texts);
    assert forall|i: int| 0 <= i < all.len() implies !(#[trigger] all[i]).contains('\n') by {
        assert(fills_row(texts[i]));
        assert(!prefixes[i].contains('\n'));
        if all[i].contains('\n') {
            let k = choose|k: int| 0 <= k < all[i].len() && all[i][k] == '\n';
            if k < prefixes[i].len() {
                assert(prefixes[i][k] == '\n');
            } else {
                assert(texts[i][k - prefixes[i].len()] == '\n');
            }
        }
    }
    assert forall|i: int| 0 <= i < all.len() && all[i].len() > 0 implies (
    #[trigger] all[i]).last() != '\r' by {
        assert(fills_row(texts[i]));
        assert(all[i].last() == texts[i].last());
    }
    assert(fills_row(texts[texts.len() - 1]));
    lemma_rows_of_lines(all);
    let found = rows_of(on_lines(all));
    assert forall|i: int| 0 <= i < texts.len() implies #[trigger] found[i] == (RowView {
        indent: prefixes[i].len() as int,
        text: texts[i],
    }) by {
        assert(fills_row(texts[i]));
        law_a_row_is_its_content(prefixes[i], texts[i], Seq::empty());
        assert(prefixes[i] + texts[i] + Seq::<char>::empty() == all[i]);
        assert(found[i] == row_of(all[i]));
    }
}

/// The left edge is the column of some row, and of no row to the left of it.
proof fn lemma_left_edge_is(all: Seq<RowView>, edge: int, k: int)
    requires
        0 <= k < all.len(),
        all[k].indent == edge,
        forall|i: int|
            0 <= i < all.len() ==> (#[trigger] all[i]).text.len() > 0 && all[i].indent >= edge,
    ensures
        left_edge(all) == Some(edge),
    decreases all.len(),
{
    let init = all.drop_last();
    assert(all[all.len() - 1] == all.last());
    if init.len() == 0 {
        assert(left_edge(init) is None);
    } else {
        assert forall|i: int| 0 <= i < init.len() implies (#[trigger] init[i]).text.len() > 0
            && init[i].indent >= edge by {
            assert(init[i] == all[i]);
        }
        if k < init.len() {
            assert(init[k] == all[k]);
            lemma_left_edge_is(init, edge, k);
        } else {
            lemma_left_edge_bounded(init, edge);
        }
    }
}

proof fn lemma_left_edge_bounded(all: Seq<RowView>, edge: int)
    requires
        forall|i: int|
            0 <= i < all.len() ==> (#[trigger] all[i]).indent >= edge,
    ensures
        left_edge(all) matches Some(found) ==> found >= edge,
    decreases all.len(),
{
    if all.len() > 0 {
        let init = all.drop_last();
        assert(all[all.len() - 1] == all.last());
        assert forall|i: int| 0 <= i < init.len() implies (#[trigger] init[i]).indent >= edge by {
            assert(init[i] == all[i]);
        }
        lemma_left_edge_bounded(init, edge);
    }
}

/// Rows that all continue each other, none of them further right than the one above it,
/// are run together.
proof fn lemma_run_together(all: Seq<RowView>, edge: int, between: Seq<char>)
    requires
        forall|i: int| 0 <= i < all.len() ==> (#[trigger] all[i]).text.len() > 0,
        forall|i: int|
            1 <= i < all.len() ==> (#[trigger] all[i]).indent <= all[i - 1].indent,
        forall|i: int| 1 <= i < all.len() ==> !list_item((#[trigger] all[i]).text),
        forall|i: int|
            1 <= i < all.len() ==> between == (if spaced(all[i - 1].text, (#[trigger] all[i]).text) {
                seq![' ']
            } else {
                Seq::empty()
            }),
    ensures
        all.len() > 0 ==> last_content(all) == Some(all.last()),
        all.len() > 0 ==> tidied(all, edge, true) == spaces(all[0].indent - edge) + join(
            all.map_values(|row: RowView| row.text),
            between,
        ),
    decreases all.len(),
{
    let text_of = |row: RowView| row.text;
    if all.len() > 0 {
        let init = all.drop_last();
        let last = all.len() - 1;
        assert(all[last] == all.last());
        assert forall|i: int| 0 <= i < init.len() implies (#[trigger] init[i]).text.len() > 0 by {
            assert(init[i] == all[i]);
        }
        assert forall|i: int| 1 <= i < init.len() implies (#[trigger] init[i]).indent <= init[i
            - 1].indent by {
            assert(init[i] == all[i]);
        }
        assert forall|i: int| 1 <= i < init.len() implies !list_item((#[trigger] init[i]).text) by {
            assert(init[i] == all[i]);
        }
        assert forall|i: int| 1 <= i < init.len() implies between == (if spaced(
            init[i - 1].text,
            (#[trigger] init[i]).text,
        ) {
            seq![' ']
        } else {
            Seq::empty()
        }) by {
            assert(init[i] == all[i]);
        }
        lemma_run_together(init, edge, between);
        let texts = all.map_values(text_of);
        assert(texts.drop_last() == init.map_values(text_of));
        if last == 0 {
            assert(init == Seq::<RowView>::empty());
            assert(last_content(init) is None);
            assert(texts[0] == all.last().text);
        } else {
            assert(init.last() == all[last - 1]);
            assert(init[0] == all[0]);
            let front = tidied(init, edge, true);
            let pad = spaces(all[0].indent - edge);
            let before = join(init.map_values(text_of), between);
            assert(front + between + Seq::<char>::empty() + all.last().text == pad + (before
                + between + all.last().text));
        }
    }
}

/// No list is opened by a content that opens none.
proof fn lemma_opens_no_list(text: Seq<char>)
    requires
        opens_no_list(text),
    ensures
        !list_item(text),
{
    let digit = |ch: char| ascii_digit(ch);
    lemma_leading_bounds(text, digit);
    let n = leading(text, digit) as int;
    if list_item(text) && n > 0 && n + 1 < text.len() && (text[n] == '.' || text[n] == ')')
        && text[n + 1] == ' ' {
        let k = choose|k: int| 0 <= k < n && !('0' <= #[trigger] text[k] <= '9');
        assert(digit(text[k]));
    }
}

/// What rows come to when every two of them are joined in the same way.
proof fn lemma_joined_lines(
    prefixes: Seq<Seq<char>>,
    texts: Seq<Seq<char>>,
    between: Seq<char>,
)
    requires
        rendered_rows(prefixes, texts),
        forall|i: int|
            1 <= i < prefixes.len() ==> (#[trigger] prefixes[i]).len() <= prefixes[i - 1].len(),
        forall|i: int| 1 <= i < texts.len() ==> opens_no_list(#[trigger] texts[i]),
        forall|i: int|
            1 <= i < texts.len() ==> between == (if spaced(texts[i - 1], #[trigger] texts[i]) {
                seq![' ']
            } else {
                Seq::empty()
            }),
    ensures
        rewrapped(on_lines(set_off(prefixes, texts)), true) == spaces(
            prefixes[0].len() - prefixes.last().len(),
        ) + join(texts, between),
{
    let all = rows_of(on_lines(set_off(prefixes, texts)));
    let last = prefixes.len() - 1;
    let edge = prefixes[last].len() as int;
    lemma_rendered_rows(prefixes, texts);
    assert forall|i: int| 0 <= i < all.len() implies (#[trigger] all[i]).text.len() > 0
        && all[i].indent >= edge by {
        assert(fills_row(texts[i]));
        lemma_columns_fall(prefixes, i, last);
    }
    assert forall|i: int| 1 <= i < all.len() implies (#[trigger] all[i]).indent <= all[i
        - 1].indent by {
        assert(all[i - 1].indent == prefixes[i - 1].len());
        assert(all[i].indent == prefixes[i].len());
    }
    assert(all[last].indent == edge);
    assert forall|i: int| 1 <= i < all.len() implies !list_item((#[trigger] all[i]).text) by {
        lemma_opens_no_list(texts[i]);
    }
    assert forall|i: int| 1 <= i < all.len() implies between == (if spaced(
        all[i - 1].text,
        (#[trigger] all[i]).text,
    ) {
        seq![' ']
    } else {
        Seq::empty()
    }) by {
        assert(all[i - 1].text == texts[i - 1]);
        assert(all[i].text == texts[i]);
    }
    lemma_left_edge_is(all, edge, last);
    lemma_run_together(all, edge, between);
    assert(all[0].indent == prefixes[0].len());
    assert(all.map_values(|row: RowView| row.text) == texts);
}

/// Columns that never step to the right fall over any distance.
proof fn lemma_columns_fall(prefixes: Seq<Seq<char>>, i: int, j: int)
    requires
        0 <= i <= j < prefixes.len(),
        forall|k: int|
            1 <= k < prefixes.len() ==> (#[trigger] prefixes[k]).len() <= prefixes[k - 1].len(),
    ensures
        prefixes[j].len() <= prefixes[i].len(),
    decreases j - i,
{
    if i < j {
        lemma_columns_fall(prefixes, i, j - 1);
        assert(prefixes[j].len() <= prefixes[j - 1].len());
    }
}

/// Wrapped ASCII rows are joined with exactly one space, whatever characters meet: where none
/// steps to the right of the one above it or opens a list, they come to their contents with
/// a space between any two of them, at the column of the first one.
pub proof fn law_ascii_rows_are_joined_with_a_space(
    prefixes: Seq<Seq<char>>,
    texts: Seq<Seq<char>>,
)
    requires
        rendered_rows(prefixes, texts),
        forall|i: int|
            1 <= i < prefixes.len() ==> (#[trigger] prefixes[i]).len() <= prefixes[i - 1].len(),
        forall|i: int| 1 <= i < texts.len() ==> opens_no_list(#[trigger] texts[i]),
        forall|i: int|
            0 <= i < texts.len() ==> (#[trigger] texts[i])[0] as int <= 0x7F && texts[i].last() as int
                <= 0x7F,
    ensures
        rewrapped(on_lines(set_off(prefixes, texts)), true) == Seq::new(
            (prefixes[0].len() - prefixes.last().len()) as nat,
            |k: int| ' ',
        ) + join(texts, seq![' ']),
{
    assert forall|i: int| 1 <= i < texts.len() implies seq![' '] == (if spaced(
        texts[i - 1],
        #[trigger] texts[i],
    ) {
        seq![' ']
    } else {
        Seq::empty()
    }) by {
        assert(fills_row(texts[i - 1]));
        assert(fills_row(texts[i]));
    }
    lemma_joined_lines(prefixes, texts, seq![' ']);
    lemma_columns_fall(prefixes, 0, prefixes.len() - 1);
    assert(spaces(prefixes[0].len() - prefixes.last().len()) =~= Seq::new(
        (prefixes[0].len() - prefixes.last().len()) as nat,
        |k: int| ' ',
    ));
}

/// A code point that Latin words are written with: ASCII, and the Latin letters of its
/// supplement, its extensions, the phonetic alphabet and the ligatures, without the signs
/// for times and divided by.
pub open spec fn of_latin_words(code: int) -> bool {
    ||| code <= 0x7F || code == 0xAA || code == 0xBA
    ||| 0xC0 <= code <= 0x2AF && code != 0xD7 && code != 0xF7
    ||| 0x1E00 <= code <= 0x1EFF || 0x2C60 <= code <= 0x2C7F || 0xFB00 <= code <= 0xFB06
    ||| 0xA722 <= code <= 0xA7CA && !(0xA788 <= code <= 0xA78A)
}

/// Wrapped rows of Latin letters beyond ASCII are joined with a space too.
pub proof fn law_latin_rows_are_joined_with_a_space(
    prefixes: Seq<Seq<char>>,
    texts: Seq<Seq<char>>,
)
    requires
        rendered_rows(prefixes, texts),
        forall|i: int|
            1 <= i < prefixes.len() ==> (#[trigger] prefixes[i]).len() <= prefixes[i - 1].len(),
        forall|i: int| 1 <= i < texts.len() ==> opens_no_list(#[trigger] texts[i]),
        forall|i: int|
            0 <= i < texts.len() ==> {
                &&& of_latin_words((#[trigger] texts[i])[0] as int)
                &&& of_latin_words(texts[i].last() as int)
            },
    ensures
        rewrapped(on_lines(set_off(prefixes, texts)), true) == Seq::new(
            (prefixes[0].len() - prefixes.last().len()) as nat,
            |k: int| ' ',
        ) + join(texts, seq![' ']),
{
    assert forall|i: int| 1 <= i < texts.len() implies seq![' '] == (if spaced(
        texts[i - 1],
        #[trigger] texts[i],
    ) {
        seq![' ']
    } else {
        Seq::empty()
    }) by {
        assert(fills_row(texts[i - 1]));
        assert(fills_row(texts[i]));
    }
    lemma_joined_lines(prefixes, texts, seq![' ']);
    lemma_columns_fall(prefixes, 0, prefixes.len() - 1);
    assert(spaces(prefixes[0].len() - prefixes.last().len()) =~= Seq::new(
        (prefixes[0].len() - prefixes.last().len()) as nat,
        |k: int| ' ',
    ));
}

/// Rows of scripts that put no space between words, Chinese and Japanese among them, are
/// joined without one, and so is whatever does not belong to Latin words.
pub proof fn law_rows_without_word_spaces_gain_none(
    prefixes: Seq<Seq<char>>,
    texts: Seq<Seq<char>>,
)
    requires
        rendered_rows(prefixes, texts),
        forall|i: int|
            1 <= i < prefixes.len() ==> (#[trigger] prefixes[i]).len() <= prefixes[i - 1].len(),
        forall|i: int| 1 <= i < texts.len() ==> opens_no_list(#[trigger] texts[i]),
        forall|i: int|
            1 <= i < texts.len() ==> {
                let last = texts[i - 1].last() as int;
                ||| !of_latin_words((#[trigger] texts[i])[0] as int)
                ||| !of_latin_words(last) && !(0x300 <= last <= 0x36F)
            },
    ensures
        rewrapped(on_lines(set_off(prefixes, texts)), true) == Seq::new(
            (prefixes[0].len() - prefixes.last().len()) as nat,
            |k: int| ' ',
        ) + join(texts, Seq::empty()),
{
    assert forall|i: int| 1 <= i < texts.len() implies Seq::<char>::empty() == (if spaced(
        texts[i - 1],
        #[trigger] texts[i],
    ) {
        seq![' ']
    } else {
        Seq::empty()
    }) by {
        assert(fills_row(texts[i - 1]));
        assert(fills_row(texts[i]));
    }
    lemma_joined_lines(prefixes, texts, Seq::empty());
    lemma_columns_fall(prefixes, 0, prefixes.len() - 1);
    assert(spaces(prefixes[0].len() - prefixes.last().len()) =~= Seq::new(
        (prefixes[0].len() - prefixes.last().len()) as nat,
        |k: int| ' ',
    ));
}

/// Cleaning keeps every row on its line and every column that is not common to all: the
/// decoration goes, and what stands further right than the leftmost row is indented by as
/// much.
pub proof fn law_cleaning_keeps_rows_and_columns(
    prefixes: Seq<Seq<char>>,
    texts: Seq<Seq<char>>,
    leftmost: int,
)
    requires
        rendered_rows(prefixes, texts),
        0 <= leftmost < prefixes.len(),
        forall|i: int|
            0 <= i < prefixes.len() ==> (#[trigger] prefixes[i]).len() >= prefixes[leftmost].len(),
    ensures
        rewrapped(on_lines(set_off(prefixes, texts)), false) == on_lines(
            Seq::new(
                texts.len(),
                |i: int|
                    Seq::new(
                        (prefixes[i].len() - prefixes[leftmost].len()) as nat,
                        |k: int| ' ',
                    ) + texts[i],
            ),
        ),
{
    let all = rows_of(on_lines(set_off(prefixes, texts)));
    let edge = prefixes[leftmost].len() as int;
    lemma_rendered_rows(prefixes, texts);
    assert forall|i: int| 0 <= i < all.len() implies (#[trigger] all[i]).text.len() > 0
        && all[i].indent >= edge by {
        assert(fills_row(texts[i]));
        assert(prefixes[i].len() >= prefixes[leftmost].len());
    }
    assert(all[leftmost].indent == edge);
    lemma_left_edge_is(all, edge, leftmost);
    law_clean_keeps_line_breaks(all, edge);
    lemma_clean_lines_of_contents(all, edge);
    let cleaned = Seq::new(
        texts.len(),
        |i: int|
            Seq::new((prefixes[i].len() - prefixes[leftmost].len()) as nat, |k: int| ' ')
                + texts[i],
    );
    assert forall|i: int| 0 <= i < texts.len() implies #[trigger] cleaned[i] == clean_lines(
        all,
        edge,
    )[i] by {
        assert(all[i].indent == prefixes[i].len());
        assert(cleaned[i] =~= spaces(all[i].indent - edge) + all[i].text);
    }
    assert(cleaned == clean_lines(all, edge));
}

/// Rows that are not blank are as many lines.
proof fn lemma_clean_lines_of_contents(all: Seq<RowView>, edge: int)
    requires
        forall|i: int| 0 <= i < all.len() ==> (#[trigger] all[i]).text.len() > 0,
    ensures
        clean_lines(all, edge).len() == all.len(),
        forall|i: int|
            0 <= i < all.len() ==> #[trigger] clean_lines(all, edge)[i] == spaces(
                all[i].indent - edge,
            ) + all[i].text,
    decreases all.len(),
{
    if all.len() > 0 {
        let init = all.drop_last();
        assert(all[all.len() - 1] == all.last());
        assert forall|i: int| 0 <= i < init.len() implies (#[trigger] init[i]).text.len() > 0 by {
            assert(init[i] == all[i]);
        }
        lemma_clean_lines_of_contents(init, edge);
        if init.len() > 0 {
            assert(init[init.len() - 1] == init.last());
        }
    }
}

/// A row that opens a list, or steps to the right, stays on a line of its own even when
/// rows are joined.
pub proof fn law_structure_stays_on_its_own_line(
    first: Seq<char>,
    above: Seq<char>,
    second: Seq<char>,
    below: Seq<char>,
    rest: Seq<char>,
    digits: Seq<char>,
)
    requires
        rendered_rows(seq![first, second], seq![above, below]),
        first.len() <= second.len(),
        ({
            ||| first.len() < second.len()
            ||| below == seq!['-', ' '] + rest
            ||| below == seq!['*', ' '] + rest
            ||| below == seq!['+', ' '] + rest
            ||| below == digits + seq!['.', ' '] + rest
            ||| below == digits + seq![')', ' '] + rest
        }),
        digits.len() > 0,
        forall|i: int| 0 <= i < digits.len() ==> '0' <= #[trigger] digits[i] <= '9',
    ensures
        rewrapped(on_lines(set_off(seq![first, second], seq![above, below])), true) == above + seq![
            '\n',
        ] + Seq::new((second.len() - first.len()) as nat, |k: int| ' ') + below,
{
    let prefixes = seq![first, second];
    let texts = seq![above, below];
    let all = rows_of(on_lines(set_off(prefixes, texts)));
    let edge = first.len() as int;
    lemma_rendered_rows(prefixes, texts);
    assert(fills_row(texts[0]));
    assert(fills_row(texts[1]));
    assert(all[0] == (RowView { indent: first.len() as int, text: above }));
    assert(all[1] == (RowView { indent: second.len() as int, text: below }));
    lemma_left_edge_is(all, edge, 0);
    if first.len() == second.len() {
        lemma_list_items(below, digits, rest);
    }
    assert(!continues(all[0], all[1]));
    let init = all.drop_last();
    assert(init.drop_last() == Seq::<RowView>::empty());
    assert(init.last() == all[0]);
    assert(tidied(Seq::<RowView>::empty(), edge, true) == Seq::<char>::empty());
    assert(last_content(Seq::<RowView>::empty()) is None);
    assert(spaces(0) + above == above);
    assert(tidied(init, edge, true) == above);
    assert(last_content(init) == Some(all[0]));
    assert(all.last() == all[1]);
    assert(spaces(second.len() - first.len()) =~= Seq::new(
        (second.len() - first.len()) as nat,
        |k: int| ' ',
    ));
}

/// The ways a list item opens.
proof fn lemma_list_items(text: Seq<char>, digits: Seq<char>, rest: Seq<char>)
    requires
        digits.len() > 0,
        forall|i: int| 0 <= i < digits.len() ==> '0' <= #[trigger] digits[i] <= '9',
        ({
            ||| text == seq!['-', ' '] + rest
            ||| text == seq!['*', ' '] + rest
            ||| text == seq!['+', ' '] + rest
            ||| text == digits + seq!['.', ' '] + rest
            ||| text == digits + seq![')', ' '] + rest
        }),
    ensures
        list_item(text),
{
    if text == digits + seq!['.', ' '] + rest || text == digits + seq![')', ' '] + rest {
        let digit = |ch: char| ascii_digit(ch);
        let n = digits.len() as int;
        assert forall|i: int| 0 <= i < n implies digit(#[trigger] text[i]) by {
            assert(text[i] == digits[i]);
        }
        assert(text[0] == digits[0]);
        lemma_leading(text, digit, n);
    }
}

/// A blank row between two others stays as one blank line, joined or not, whatever
/// decoration it is made of.
pub proof fn law_a_blank_row_stays_a_blank_line(
    first: Seq<char>,
    above: Seq<char>,
    gap: Seq<char>,
    second: Seq<char>,
    below: Seq<char>,
    join_rows: bool,
)
    requires
        fills_row(above),
        fills_row(below),
        first.len() == second.len(),
        !first.contains('\n') && !gap.contains('\n') && !second.contains('\n'),
        gap.len() > 0 ==> gap.last() != '\r',
        forall|i: int| 0 <= i < first.len() ==> decorates(#[trigger] first[i] as int),
        forall|i: int| 0 <= i < gap.len() ==> decorates(#[trigger] gap[i] as int),
        forall|i: int| 0 <= i < second.len() ==> decorates(#[trigger] second[i] as int),
        ({
            let all = on_lines(seq![first + above, gap, second + below]);
            without_diff_numbers(all) == all
        }),
    ensures
        rewrapped(on_lines(seq![first + above, gap, second + below]), join_rows) == above + seq![
            '\n',
            '\n',
        ] + below,
{
    let lined = seq![first + above, gap, second + below];
    let none = Seq::<char>::empty();
    assert forall|i: int| 0 <= i < lined.len() implies !(#[trigger] lined[i]).contains('\n') by {
        if lined[i].contains('\n') {
            let k = choose|k: int| 0 <= k < lined[i].len() && lined[i][k] == '\n';
            if i == 0 {
                if k < first.len() {
                    assert(first[k] == '\n');
                } else {
                    assert(above[k - first.len()] == '\n');
                }
            } else if i == 2 {
                if k < second.len() {
                    assert(second[k] == '\n');
                } else {
                    assert(below[k - second.len()] == '\n');
                }
            }
        }
    }
    assert((first + above).last() == above.last());
    assert((second + below).last() == below.last());
    lemma_rows_of_lines(lined);
    let all = rows_of(on_lines(lined));
    law_a_row_is_its_content(first, above, none);
    law_a_row_is_its_content(gap, above, none);
    law_a_row_is_its_content(second, below, none);
    assert(first + above + none == first + above);
    assert(second + below + none == second + below);
    assert(gap + none == gap);
    assert(all[0] == row_of(lined[0]));
    assert(all[1] == row_of(lined[1]));
    assert(all[2] == row_of(lined[2]));
    let edge = first.len() as int;
    let two = all.drop_last();
    let one = two.drop_last();
    let zero = one.drop_last();
    assert(zero == Seq::<RowView>::empty());
    assert(two.last() == all[1]);
    assert(one.last() == all[0]);
    assert(all.last() == all[2]);
    assert(left_edge(zero) is None);
    assert(left_edge(one) == Some(edge));
    assert(left_edge(two) == Some(edge));
    assert(left_edge(all) == Some(edge));
    assert(last_content(zero) is None);
    assert(last_content(one) == Some(all[0]));
    assert(last_content(two) == Some(all[0]));
    assert(spaces(0) == none);
    assert(tidied(zero, edge, join_rows) == none);
    assert(tidied(one, edge, join_rows) == spaces(0) + above);
    assert(spaces(0) + above == above);
    assert(tidied(two, edge, join_rows) == above);
    assert(above + seq!['\n', '\n'] + none + below == above + seq!['\n', '\n'] + below);
}

/// Marks count with the letter that they stand on: behind a Latin letter they leave the
/// space between words, behind a letter of another script there is none.
pub proof fn law_marks_count_with_their_letter(
    front: Seq<char>,
    letter: char,
    marks: Seq<char>,
    next: Seq<char>,
)
    requires
        forall|i: int| 0 <= i < marks.len() ==> 0x300 <= #[trigger] marks[i] as int <= 0x36F,
        next.len() > 0,
        next[0] as int <= 0x7F,
    ensures
        'A' <= letter <= 'Z' || 'a' <= letter <= 'z' || 0xD8 <= letter as int <= 0xF6 ==> spaced(
            front.push(letter) + marks,
            next,
        ),
        0x370 <= letter as int <= 0x1DFF || 0x2E80 <= letter as int <= 0xA4CF || letter as int
            == 0xD7 || letter as int == 0xF7 ==> !spaced(front.push(letter) + marks, next),
{
    let text = front.push(letter) + marks;
    if marks.len() == 0 {
        assert(text == front.push(letter));
        assert(text.last() == letter);
    } else {
        let fewer = marks.drop_last();
        assert(0x300 <= marks[marks.len() - 1] as int <= 0x36F);
        assert(text.last() == marks.last());
        assert(text.drop_last() == front.push(letter) + fewer);
        assert forall|i: int| 0 <= i < fewer.len() implies 0x300 <= #[trigger] fewer[i] as int
            <= 0x36F by {
            assert(fewer[i] == marks[i]);
        }
        if !(0x300 <= letter as int <= 0x36F) {
            lemma_letter_below_marks(front, letter, fewer);
        }
    }
}

proof fn lemma_letter_below_marks(front: Seq<char>, letter: char, marks: Seq<char>)
    requires
        forall|i: int| 0 <= i < marks.len() ==> 0x300 <= #[trigger] marks[i] as int <= 0x36F,
        !(0x300 <= letter as int <= 0x36F),
    ensures
        ends_in_latin_letter(front.push(letter) + marks) == latin_letter(letter),
    decreases marks.len(),
{
    let text = front.push(letter) + marks;
    if marks.len() == 0 {
        assert(text == front.push(letter));
    } else {
        let fewer = marks.drop_last();
        assert(0x300 <= marks[marks.len() - 1] as int <= 0x36F);
        assert(text.last() == marks.last());
        assert(text.drop_last() == front.push(letter) + fewer);
        assert forall|i: int| 0 <= i < fewer.len() implies 0x300 <= #[trigger] fewer[i] as int
            <= 0x36F by {
            assert(fewer[i] == marks[i]);
        }
        lemma_letter_below_marks(front, letter, fewer);
    }
}

/// Blank rows in front of the first content and behind the last one leave nothing.
pub proof fn law_blank_rows_at_the_edges_leave_nothing(
    blank_row: RowView,
    all: Seq<RowView>,
    edge: int,
    join_rows: bool,
)
    requires
        blank_row.text.len() == 0,
    ensures
        tidied(seq![blank_row] + all, edge, join_rows) == tidied(all, edge, join_rows),
        tidied(all.push(blank_row), edge, join_rows) == tidied(all, edge, join_rows),
        last_content(seq![blank_row] + all) == last_content(all),
        left_edge(seq![blank_row] + all) == left_edge(all),
        left_edge(all.push(blank_row)) == left_edge(all),
    decreases all.len(),
{
    let more = seq![blank_row] + all;
    assert(all.push(blank_row).drop_last() == all);
    if all.len() == 0 {
        assert(more.drop_last() == Seq::<RowView>::empty());
        assert(all == Seq::<RowView>::empty());
        assert(more.last() == blank_row);
    } else {
        let init = all.drop_last();
        law_blank_rows_at_the_edges_leave_nothing(blank_row, init, edge, join_rows);
        assert(more.drop_last() == seq![blank_row] + init);
        assert(more.last() == all.last());
        if init.len() > 0 {
            assert((seq![blank_row] + init).last() == init.last());
        } else {
            assert(init == Seq::<RowView>::empty());
            assert(last_content(init) is None);
        }
    }
}

} // verus!
