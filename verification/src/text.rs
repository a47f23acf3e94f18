//! Plain text: character classes, trimming, lines, searching, joining, numbers.
//!
//! A text is modelled as its sequence of characters.

use vstd::prelude::*;
use vstd::string::StringExecFns;

use crate::bytes::{lemma_encode_injective, same_bytes};

verus! {

/// `String::push` appends one character to the end of the string.
pub assume_specification[ String::push ](string: &mut String, ch: char)
    ensures
        final(string)@ == old(string)@.push(ch),
;

// Character classes

/// The characters with the Unicode `White_Space` property.
pub open spec fn white_space(ch: char) -> bool {
    ||| '\u{0009}' <= ch <= '\u{000D}'
    ||| ch == ' '
    ||| ch == '\u{0085}'
    ||| ch == '\u{00A0}'
    ||| ch == '\u{1680}'
    ||| '\u{2000}' <= ch <= '\u{200A}'
    ||| ch == '\u{2028}'
    ||| ch == '\u{2029}'
    ||| ch == '\u{202F}'
    ||| ch == '\u{205F}'
    ||| ch == '\u{3000}'
}

/// The characters of the Unicode general category `Cc`.
pub open spec fn control(ch: char) -> bool {
    ch <= '\u{001F}' || '\u{007F}' <= ch <= '\u{009F}'
}

/// The ten ASCII digits.
pub open spec fn ascii_digit(ch: char) -> bool {
    '0' <= ch <= '9'
}

/// Whether a character is white space.
pub fn is_white_space(ch: char) -> (yes: bool)
    ensures
        yes == white_space(ch),
{
    ('\u{0009}' <= ch && ch <= '\u{000D}') || ch == ' ' || ch == '\u{0085}' || ch == '\u{00A0}'
        || ch == '\u{1680}' || ('\u{2000}' <= ch && ch <= '\u{200A}') || ch == '\u{2028}' || ch
        == '\u{2029}' || ch == '\u{202F}' || ch == '\u{205F}' || ch == '\u{3000}'
}

/// Whether a character is a control character.
pub fn is_control(ch: char) -> (yes: bool)
    ensures
        yes == control(ch),
{
    ch <= '\u{001F}' || ('\u{007F}' <= ch && ch <= '\u{009F}')
}

/// Whether a character is an ASCII digit.
pub fn is_ascii_digit(ch: char) -> (yes: bool)
    ensures
        yes == ascii_digit(ch),
{
    '0' <= ch && ch <= '9'
}

// Runs, blanks and trimming

/// Length of the longest run at the front of `text` whose characters are all in
/// `class`.
pub open spec fn leading(text: Seq<char>, class: spec_fn(char) -> bool) -> nat
    decreases text.len(),
{
    if text.len() == 0 || !class(text[0]) {
        0
    } else {
        1 + leading(text.drop_first(), class)
    }
}

/// Text made of white space alone, the empty text among it.
pub open spec fn blank(text: Seq<char>) -> bool {
    forall|i: int| 0 <= i < text.len() ==> white_space(#[trigger] text[i])
}

/// `text` without the white space in front of it.
pub open spec fn trim_start(text: Seq<char>) -> Seq<char> {
    text.skip(leading(text, |ch: char| white_space(ch)) as int)
}

/// `text` without the white space behind it.
pub open spec fn trim_end(text: Seq<char>) -> Seq<char>
    decreases text.len(),
{
    if text.len() > 0 && white_space(text.last()) {
        trim_end(text.drop_last())
    } else {
        text
    }
}

/// `text` without the white space around it.
pub open spec fn trim(text: Seq<char>) -> Seq<char> {
    trim_end(trim_start(text))
}

/// A run is found by its end: the first character out of the class.
pub proof fn lemma_leading(text: Seq<char>, class: spec_fn(char) -> bool, n: int)
    requires
        0 <= n <= text.len(),
        forall|i: int| 0 <= i < n ==> class(#[trigger] text[i]),
        n == text.len() || !class(text[n]),
    ensures
        leading(text, class) == n,
    decreases n,
{
    if n > 0 {
        let rest = text.drop_first();
        assert forall|i: int| 0 <= i < n - 1 implies class(#[trigger] rest[i]) by {
            assert(rest[i] == text[i + 1]);
        }
        if n < text.len() {
            assert(rest[n - 1] == text[n]);
        }
        lemma_leading(rest, class, n - 1);
    }
}

/// A run never passes the end of the text, holds nothing out of the class, and
/// ends before a character that is out of it.
pub proof fn lemma_leading_bounds(text: Seq<char>, class: spec_fn(char) -> bool)
    ensures
        leading(text, class) <= text.len(),
        forall|i: int| 0 <= i < leading(text, class) ==> class(#[trigger] text[i]),
        leading(text, class) < text.len() ==> !class(text[leading(text, class) as int]),
    decreases text.len(),
{
    if text.len() > 0 && class(text[0]) {
        let rest = text.drop_first();
        lemma_leading_bounds(rest, class);
        assert forall|i: int| 0 <= i < leading(text, class) implies class(#[trigger] text[i]) by {
            if i > 0 {
                assert(rest[i - 1] == text[i]);
            }
        }
    }
}

/// Trimming at the end is found by its end: the last character that is no white
/// space.
pub proof fn lemma_trim_end(text: Seq<char>, n: int)
    requires
        0 <= n <= text.len(),
        forall|i: int| n <= i < text.len() ==> white_space(#[trigger] text[i]),
        n == 0 || !white_space(text[n - 1]),
    ensures
        trim_end(text) == text.take(n),
    decreases text.len(),
{
    if n < text.len() {
        assert(white_space(text[text.len() - 1]));
        lemma_trim_end(text.drop_last(), n);
        assert(text.drop_last().take(n) == text.take(n));
    } else {
        assert(text.take(n) == text);
    }
}

/// Blank texts are those that trimming leaves nothing of, at either end or both.
pub proof fn law_blank_texts_trim_to_nothing(text: Seq<char>)
    ensures
        blank(text) <==> trim(text).len() == 0,
        blank(text) <==> trim_start(text).len() == 0,
        blank(text) <==> trim_end(text).len() == 0,
{
    let space = |ch: char| white_space(ch);
    lemma_leading_bounds(text, space);
    let n = leading(text, space) as int;
    let front = text.skip(n);
    assert(trim_start(text) == front);
    if n < text.len() {
        assert(!white_space(text[n]));
        assert(front[0] == text[n]);
        lemma_trim_end_keeps(front, 0);
        lemma_trim_end_keeps(text, n);
    } else {
        assert forall|i: int| 0 <= i < text.len() implies white_space(#[trigger] text[i]) by {
            assert(space(text[i]));
        }
        lemma_trim_end(text, 0);
        assert(trim_end(front).len() == 0);
    }
}

/// Trimming takes white space alone, and all of it: what is gone at either end is blank,
/// and neither end of what is left is white space.
pub proof fn law_trimming_takes_white_space_alone(text: Seq<char>)
    ensures
        exists|front: Seq<char>, back: Seq<char>|
            blank(front) && blank(back) && text == #[trigger] (front + trim(text) + back),
        trim(text).len() > 0 ==> !white_space(trim(text)[0]) && !white_space(trim(text).last()),
{
    let space = |ch: char| white_space(ch);
    lemma_leading_bounds(text, space);
    let n = leading(text, space) as int;
    let front = text.take(n);
    let rest = text.skip(n);
    assert forall|i: int| 0 <= i < front.len() implies white_space(#[trigger] front[i]) by {
        assert(space(text[i]));
    }
    let m = lemma_trim_end_cut(rest);
    let back = rest.skip(m);
    assert forall|i: int| 0 <= i < back.len() implies white_space(#[trigger] back[i]) by {
        assert(back[i] == rest[m + i]);
    }
    assert(text == front + trim(text) + back);
    if m > 0 {
        assert(rest[0] == text[n]);
        assert(!space(text[n]));
    }
}

/// Where trimming at the end cuts.
proof fn lemma_trim_end_cut(text: Seq<char>) -> (n: int)
    ensures
        0 <= n <= text.len(),
        trim_end(text) == text.take(n),
        forall|i: int| n <= i < text.len() ==> white_space(#[trigger] text[i]),
        n > 0 ==> !white_space(text[n - 1]),
    decreases text.len(),
{
    if text.len() > 0 && white_space(text.last()) {
        let n = lemma_trim_end_cut(text.drop_last());
        assert(text.drop_last().take(n) == text.take(n));
        assert forall|i: int| n <= i < text.len() implies white_space(#[trigger] text[i]) by {
            if i < text.len() - 1 {
                assert(text.drop_last()[i] == text[i]);
            }
        }
        n
    } else {
        assert(text.take(text.len() as int) == text);
        text.len() as int
    }
}

/// A text that was trimmed has no white space left around it.
pub proof fn law_trimming_twice_is_trimming_once(text: Seq<char>)
    ensures
        trim(trim(text)) == trim(text),
{
    let space = |ch: char| white_space(ch);
    let front = trim_start(text);
    let inner = trim(text);
    lemma_leading_bounds(text, space);
    if front.len() > 0 {
        assert(!space(front[0]));
        lemma_trim_end_keeps(front, 0);
        assert(inner[0] == front[0]);
        lemma_leading(inner, space, 0);
        assert(inner.skip(0) == inner);
    }
}

/// Trimming at the end keeps every character up to one that is no white space.
pub proof fn lemma_trim_end_keeps(text: Seq<char>, at: int)
    requires
        0 <= at < text.len(),
        !white_space(text[at]),
    ensures
        trim_end(text).len() > at,
        trim_end(text).is_prefix_of(text),
        !white_space(trim_end(text).last()),
    decreases text.len(),
{
    if white_space(text.last()) {
        lemma_trim_end_keeps(text.drop_last(), at);
    }
}

// Lines

/// Position of the first `mark` in a sequence, or its length if it has none.
pub open spec fn first_of<A>(items: Seq<A>, mark: A) -> nat
    decreases items.len(),
{
    if items.len() == 0 || items[0] == mark {
        0
    } else {
        1 + first_of(items.drop_first(), mark)
    }
}

/// The rows of a sequence in order, each with the `mark` that ends it. Joined
/// together they are the sequence again.
pub open spec fn rows<A>(items: Seq<A>, mark: A) -> Seq<Seq<A>>
    decreases items.len(),
{
    if items.len() == 0 {
        Seq::empty()
    } else if first_of(items, mark) < items.len() {
        let cut = first_of(items, mark) as int + 1;
        seq![items.take(cut)] + rows(items.skip(cut), mark)
    } else {
        seq![items]
    }
}

/// The lines of `text` in order, each with the line feed that ends it.
pub open spec fn lines_inclusive(text: Seq<char>) -> Seq<Seq<char>> {
    rows(text, '\n')
}

/// A line without the line feed, or the carriage return and line feed, that
/// ends it.
pub open spec fn chomp(line: Seq<char>) -> Seq<char> {
    if line.len() > 0 && line.last() == '\n' {
        let body = line.drop_last();
        if body.len() > 0 && body.last() == '\r' {
            body.drop_last()
        } else {
            body
        }
    } else {
        line
    }
}

/// The lines of `text` in order, without what ends them.
pub open spec fn lines(text: Seq<char>) -> Seq<Seq<char>> {
    lines_inclusive(text).map_values(|line: Seq<char>| chomp(line))
}

/// The first mark is found by what stands before it.
pub proof fn lemma_first_of<A>(items: Seq<A>, mark: A, n: int)
    requires
        0 <= n <= items.len(),
        forall|i: int| 0 <= i < n ==> #[trigger] items[i] != mark,
        n == items.len() || items[n] == mark,
    ensures
        first_of(items, mark) == n,
    decreases n,
{
    if n > 0 {
        assert(items[0] != mark);
        let rest = items.drop_first();
        assert forall|i: int| 0 <= i < n - 1 implies #[trigger] rest[i] != mark by {
            assert(rest[i] == items[i + 1]);
        }
        if n < items.len() {
            assert(rest[n - 1] == items[n]);
        }
        lemma_first_of(rest, mark, n - 1);
    }
}

/// Nothing before the first mark is one.
pub proof fn lemma_first_of_bounds<A>(items: Seq<A>, mark: A)
    ensures
        first_of(items, mark) <= items.len(),
        forall|i: int| 0 <= i < first_of(items, mark) ==> #[trigger] items[i] != mark,
        first_of(items, mark) < items.len() ==> items[first_of(items, mark) as int] == mark,
    decreases items.len(),
{
    if items.len() > 0 && items[0] != mark {
        let rest = items.drop_first();
        lemma_first_of_bounds(rest, mark);
        assert forall|i: int| 0 <= i < first_of(items, mark) implies #[trigger] items[i]
            != mark by {
            if i > 0 {
                assert(rest[i - 1] == items[i]);
            }
        }
    }
}

/// The rows of a sequence, joined together, are the sequence again.
pub proof fn lemma_rows_join<A>(items: Seq<A>, mark: A)
    ensures
        rows(items, mark).flatten() == items,
    decreases items.len(),
{
    lemma_first_of_bounds(items, mark);
    if items.len() > 0 {
        if first_of(items, mark) < items.len() {
            let cut = first_of(items, mark) as int + 1;
            let rest = items.skip(cut);
            lemma_rows_join(rest, mark);
            let all = rows(items, mark);
            assert(all.drop_first() == rows(rest, mark));
            assert(all.first() == items.take(cut));
            assert(items.take(cut) + rest == items);
        } else {
            seq![items].lemma_flatten_one_element();
        }
    }
}

/// What holds the mark at its end at most is one row.
pub proof fn lemma_single_row<A>(items: Seq<A>, mark: A)
    requires
        items.len() > 0,
        forall|k: int| 0 <= k < items.len() - 1 ==> #[trigger] items[k] != mark,
    ensures
        rows(items, mark) == seq![items],
{
    let last = items.len() - 1;
    if items[last] == mark {
        lemma_first_of(items, mark, last);
        assert(items.take(last + 1) == items);
        assert(items.skip(last + 1) == Seq::<A>::empty());
        assert(seq![items] + rows(Seq::<A>::empty(), mark) == seq![items]);
    } else {
        assert forall|k: int| 0 <= k < items.len() implies #[trigger] items[k] != mark by {}
        lemma_first_of(items, mark, items.len() as int);
    }
}

/// Behind a mark, rows begin anew.
pub proof fn law_rows_begin_anew_behind_a_mark<A>(front: Seq<A>, mark: A, back: Seq<A>)
    ensures
        rows(front.push(mark) + back, mark) == rows(front.push(mark), mark) + rows(back, mark),
    decreases front.len(),
{
    let head = front.push(mark);
    let whole = head + back;
    lemma_first_of_bounds(head, mark);
    let at = first_of(head, mark) as int;
    assert(head[front.len() as int] == mark);
    assert(at < head.len());
    assert forall|k: int| 0 <= k < at implies #[trigger] whole[k] != mark by {
        assert(whole[k] == head[k]);
    }
    lemma_first_of(whole, mark, at);
    assert(whole.take(at + 1) == head.take(at + 1));
    if at < front.len() {
        let rest = front.skip(at + 1);
        law_rows_begin_anew_behind_a_mark(rest, mark, back);
        assert(head.skip(at + 1) == rest.push(mark));
        assert(whole.skip(at + 1) == rest.push(mark) + back);
        assert(seq![head.take(at + 1)] + (rows(rest.push(mark), mark) + rows(back, mark)) == seq![
            head.take(at + 1),
        ] + rows(rest.push(mark), mark) + rows(back, mark));
    } else {
        assert(head.skip(at + 1) == Seq::<A>::empty());
        assert(whole.skip(at + 1) == back);
        assert(seq![head.take(at + 1)] + rows(Seq::<A>::empty(), mark) == seq![head.take(at + 1)]);
    }
}

/// A row holds the mark at its end or nowhere.
proof fn lemma_marks_end_rows<A>(items: Seq<A>, mark: A, i: int, k: int)
    requires
        0 <= i < rows(items, mark).len(),
        0 <= k < rows(items, mark)[i].len() - 1,
    ensures
        rows(items, mark)[i][k] != mark,
    decreases items.len(),
{
    lemma_first_of_bounds(items, mark);
    if first_of(items, mark) < items.len() {
        let cut = first_of(items, mark) as int + 1;
        let rest = items.skip(cut);
        if i > 0 {
            assert(rows(items, mark)[i] == rows(rest, mark)[i - 1]);
            lemma_marks_end_rows(rest, mark, i - 1, k);
        } else {
            assert(rows(items, mark)[0] == items.take(cut));
            assert(items.take(cut)[k] == items[k]);
        }
    } else {
        assert(items[k] != mark);
    }
}

/// No line of a text holds a line feed.
pub proof fn law_lines_hold_no_line_feeds(text: Seq<char>, i: int)
    requires
        0 <= i < lines(text).len(),
    ensures
        !lines(text)[i].contains('\n'),
{
    let row = lines_inclusive(text)[i];
    let line = lines(text)[i];
    assert(line == chomp(row));
    assert forall|k: int| 0 <= k < line.len() implies #[trigger] line[k] != '\n' by {
        assert(line[k] == row[k]);
        if k < row.len() - 1 {
            lemma_marks_end_rows(text, '\n', i, k);
        }
    }
}

/// Every range of `bounds` is the one that the row of the same number takes in
/// `items`.
pub open spec fn bounds_match<A>(
    items: Seq<A>,
    all: Seq<Seq<A>>,
    bounds: Seq<(usize, usize)>,
) -> bool {
    &&& bounds.len() == all.len()
    &&& forall|i: int|
        0 <= i < bounds.len() ==> (#[trigger] bounds[i]).0 <= bounds[i].1 <= items.len()
            && items.subrange(bounds[i].0 as int, bounds[i].1 as int) == all[i]
}

/// The rows of `items` are those in `done` and behind them those of what follows
/// `start`.
spec fn rows_done<A>(items: Seq<A>, mark: A, done: Seq<Seq<A>>, start: int, at: int) -> bool {
    &&& 0 <= start <= at <= items.len()
    &&& rows(items, mark) == done + rows(items.skip(start), mark)
    &&& forall|i: int| start <= i < at ==> #[trigger] items[i] != mark
}

/// A mark ends a row.
proof fn lemma_row_ends<A>(items: Seq<A>, mark: A, done: Seq<Seq<A>>, start: int, at: int)
    requires
        rows_done(items, mark, done, start, at),
        at < items.len(),
        items[at] == mark,
    ensures
        rows_done(items, mark, done.push(items.subrange(start, at + 1)), at + 1, at + 1),
{
    let rest = items.skip(start);
    assert forall|i: int| 0 <= i < at - start implies #[trigger] rest[i] != mark by {
        assert(rest[i] == items[start + i]);
    }
    lemma_first_of(rest, mark, at - start);
    let row = rest.take(at + 1 - start);
    assert(rest.skip(at + 1 - start) == items.skip(at + 1));
    assert(row == items.subrange(start, at + 1));
    assert(done + (seq![row] + rows(items.skip(at + 1), mark)) == done.push(row) + rows(
        items.skip(at + 1),
        mark,
    ));
}

/// What stands behind the last mark is a row of its own, unless it is empty.
proof fn lemma_rows_end<A>(items: Seq<A>, mark: A, done: Seq<Seq<A>>, start: int)
    requires
        rows_done(items, mark, done, start, items.len() as int),
    ensures
        rows(items, mark) == (if start < items.len() {
            done.push(items.subrange(start, items.len() as int))
        } else {
            done
        }),
{
    let rest = items.skip(start);
    assert forall|i: int| 0 <= i < rest.len() implies #[trigger] rest[i] != mark by {
        assert(rest[i] == items[start + i]);
    }
    lemma_first_of(rest, mark, rest.len() as int);
    assert(rest == items.subrange(start, items.len() as int));
    if start < items.len() {
        assert(done + seq![rest] == done.push(rest));
    } else {
        assert(done + rows(rest, mark) == done);
    }
}

/// Where the lines of a text start and end, each with the line feed that ends
/// it.
pub fn line_bounds(chars: &Vec<char>) -> (bounds: Vec<(usize, usize)>)
    ensures
        bounds_match(chars@, lines_inclusive(chars@), bounds@),
{
    let mut bounds: Vec<(usize, usize)> = Vec::new();
    let mut start: usize = 0;
    let mut at: usize = 0;
    let ghost mut done: Seq<Seq<char>> = Seq::empty();
    proof {
        assert(chars@.skip(0) == chars@);
        assert(done + rows(chars@, '\n') == rows(chars@, '\n'));
    }
    while at < chars.len()
        invariant
            at <= chars@.len(),
            rows_done(chars@, '\n', done, start as int, at as int),
            bounds_match(chars@, done, bounds@),
        decreases chars@.len() - at,
    {
        if chars[at] == '\n' {
            proof {
                lemma_row_ends(chars@, '\n', done, start as int, at as int);
                done = done.push(chars@.subrange(start as int, at + 1));
            }
            bounds.push((start, at + 1));
            start = at + 1;
        }
        at = at + 1;
    }
    proof {
        lemma_rows_end(chars@, '\n', done, start as int);
    }
    if start < chars.len() {
        bounds.push((start, at));
    }
    bounds
}

/// Where the rows of a byte string start and end, each with the line feed that
/// ends it.
pub fn row_bounds(bytes: &[u8]) -> (bounds: Vec<(usize, usize)>)
    ensures
        bounds_match(bytes@, rows(bytes@, 0x0Au8), bounds@),
{
    let mut bounds: Vec<(usize, usize)> = Vec::new();
    let mut start: usize = 0;
    let mut at: usize = 0;
    let ghost mut done: Seq<Seq<u8>> = Seq::empty();
    proof {
        assert(bytes@.skip(0) == bytes@);
        assert(done + rows(bytes@, 0x0Au8) == rows(bytes@, 0x0Au8));
    }
    while at < bytes.len()
        invariant
            at <= bytes@.len(),
            rows_done(bytes@, 0x0Au8, done, start as int, at as int),
            bounds_match(bytes@, done, bounds@),
        decreases bytes@.len() - at,
    {
        if bytes[at] == 0x0A {
            proof {
                lemma_row_ends(bytes@, 0x0Au8, done, start as int, at as int);
                done = done.push(bytes@.subrange(start as int, at + 1));
            }
            bounds.push((start, at + 1));
            start = at + 1;
        }
        at = at + 1;
    }
    proof {
        lemma_rows_end(bytes@, 0x0Au8, done, start as int);
    }
    if start < bytes.len() {
        bounds.push((start, at));
    }
    bounds
}

// Whole strings

/// The characters of a string, in order.
pub fn chars_of(text: &str) -> (chars: Vec<char>)
    ensures
        chars@ == text@,
{
    let mut chars: Vec<char> = Vec::new();
    for ch in it: text.chars()
        invariant
            it.seq() == text@,
            chars@ == text@.take(it.index() as int),
    {
        chars.push(ch);
    }
    chars
}

/// Append the characters `from..to` of `chars` to a string.
pub(crate) fn push_chars(out: &mut String, chars: &Vec<char>, from: usize, to: usize)
    requires
        from <= to <= chars@.len(),
    ensures
        final(out)@ == old(out)@ + chars@.subrange(from as int, to as int),
{
    let ghost before = out@;
    let mut i: usize = from;
    while i < to
        invariant
            from <= i <= to <= chars@.len(),
            out@ == before + chars@.subrange(from as int, i as int),
        decreases to - i,
    {
        out.push(chars[i]);
        assert(chars@.subrange(from as int, i + 1) == chars@.subrange(from as int, i as int).push(
            chars@[i as int],
        ));
        i = i + 1;
    }
}

/// The characters `from..to` of `chars` as a string.
pub(crate) fn string_of(chars: &Vec<char>, from: usize, to: usize) -> (text: String)
    requires
        from <= to <= chars@.len(),
    ensures
        text@ == chars@.subrange(from as int, to as int),
{
    let mut text = String::new();
    push_chars(&mut text, chars, from, to);
    text
}

/// Whether two texts are the same.
pub fn same_text(a: &str, b: &str) -> (same: bool)
    ensures
        same == (a@ == b@),
{
    let same = same_bytes(a.as_bytes(), b.as_bytes());
    proof {
        if same {
            lemma_encode_injective(a@, b@);
        }
    }
    same
}

/// Whether an optional text is there and is the given one.
pub fn is_text(text: Option<&str>, expected: &str) -> (yes: bool)
    ensures
        yes == (option_view(text) == Some(expected@)),
{
    match text {
        Some(text) => same_text(text, expected),
        None => false,
    }
}

/// An owned copy of an optional text.
pub fn owned(text: Option<&str>) -> (copy: Option<String>)
    ensures
        string_view(copy) == option_view(text),
{
    match text {
        Some(text) => Some(text.to_string()),
        None => None,
    }
}

/// A copy of an optional string.
pub fn copy_text(text: &Option<String>) -> (copy: Option<String>)
    ensures
        copy == *text,
{
    match text {
        Some(text) => Some(text.clone()),
        None => None,
    }
}

/// The text an optional string slice holds.
pub open spec fn option_view(text: Option<&str>) -> Option<Seq<char>> {
    match text {
        Some(text) => Some(text@),
        None => None,
    }
}

/// The text an optional string holds.
pub open spec fn string_view(text: Option<String>) -> Option<Seq<char>> {
    match text {
        Some(text) => Some(text@),
        None => None,
    }
}

/// The texts of a sequence of strings.
pub open spec fn views(texts: Seq<String>) -> Seq<Seq<char>> {
    texts.map_values(|text: String| text@)
}

/// The texts of a sequence of string slices.
pub open spec fn str_views(texts: Seq<&str>) -> Seq<Seq<char>> {
    texts.map_values(|text: &str| text@)
}

/// Whether a text is made of white space alone.
pub fn is_blank(text: &str) -> (yes: bool)
    ensures
        yes == blank(text@),
{
    for ch in it: text.chars()
        invariant
            it.seq() == text@,
            forall|i: int| 0 <= i < it.index() ==> white_space(#[trigger] text@[i]),
    {
        if !is_white_space(ch) {
            assert(!white_space(text@[it.index() as int]));
            return false;
        }
    }
    true
}

/// End of the run of white space that starts at `from`.
pub(crate) fn skip_white_space(chars: &Vec<char>, from: usize) -> (at: usize)
    requires
        from <= chars@.len(),
    ensures
        from <= at <= chars@.len(),
        trim_start(chars@.skip(from as int)) == chars@.skip(at as int),
        at < chars@.len() ==> !white_space(chars@[at as int]),
{
    let mut at: usize = from;
    while at < chars.len() && is_white_space(chars[at])
        invariant
            from <= at <= chars@.len(),
            forall|i: int| from <= i < at ==> white_space(#[trigger] chars@[i]),
        decreases chars@.len() - at,
    {
        at = at + 1;
    }
    proof {
        let rest = chars@.skip(from as int);
        let space = |ch: char| white_space(ch);
        assert forall|i: int| 0 <= i < at - from implies space(#[trigger] rest[i]) by {
            assert(rest[i] == chars@[from + i]);
        }
        lemma_leading(rest, space, at - from);
        assert(rest.skip(at - from) == chars@.skip(at as int));
    }
    at
}

/// Where the text before `to` ends once the white space behind it is gone.
pub(crate) fn drop_white_space(chars: &Vec<char>, from: usize, to: usize) -> (at: usize)
    requires
        from <= to <= chars@.len(),
    ensures
        from <= at <= to,
        trim_end(chars@.subrange(from as int, to as int)) == chars@.subrange(
            from as int,
            at as int,
        ),
{
    let mut at: usize = to;
    while at > from && is_white_space(chars[at - 1])
        invariant
            from <= at <= to <= chars@.len(),
            forall|i: int| at <= i < to ==> white_space(#[trigger] chars@[i]),
        decreases at,
    {
        at = at - 1;
    }
    proof {
        let text = chars@.subrange(from as int, to as int);
        assert forall|i: int| at - from <= i < text.len() implies white_space(
            #[trigger] text[i],
        ) by {
            assert(text[i] == chars@[from + i]);
        }
        if at > from {
            assert(text[at - from - 1] == chars@[at - 1]);
        }
        lemma_trim_end(text, at - from);
        assert(text.take(at - from) == chars@.subrange(from as int, at as int));
    }
    at
}

/// The text without the white space around it.
pub fn trimmed(text: &str) -> (inner: String)
    ensures
        inner@ == trim(text@),
{
    let chars = chars_of(text);
    let start: usize = skip_white_space(&chars, 0);
    let end: usize = drop_white_space(&chars, start, chars.len());
    proof {
        assert(chars@.skip(0) == text@);
        assert(chars@.subrange(start as int, chars@.len() as int) == chars@.skip(start as int));
    }
    string_of(&chars, start, end)
}

/// Whether `prefix` stands in `chars` from position `from` on.
pub(crate) fn starts_at(chars: &Vec<char>, from: usize, prefix: &str) -> (yes: bool)
    requires
        from <= chars@.len(),
    ensures
        yes == prefix@.is_prefix_of(chars@.skip(from as int)),
{
    let ghost rest = chars@.skip(from as int);
    let mut at: usize = from;
    for ch in it: prefix.chars()
        invariant
            it.seq() == prefix@,
            from <= at <= chars@.len(),
            at == from + it.index(),
            rest == chars@.skip(from as int),
            forall|i: int| 0 <= i < it.index() ==> prefix@[i] == #[trigger] rest[i],
    {
        if at >= chars.len() {
            return false;
        }
        if chars[at] != ch {
            proof {
                let i = it.index() as int;
                assert(rest[i] != prefix@[i]);
                if prefix@.is_prefix_of(rest) {
                    assert(rest.subrange(0, prefix@.len() as int)[i] == rest[i]);
                }
            }
            return false;
        }
        assert(rest[it.index() as int] == ch);
        at = at + 1;
    }
    assert(prefix@ =~= rest.subrange(0, prefix@.len() as int));
    true
}

/// Whether `suffix` ends `text`.
pub fn ends_with(text: &str, suffix: &str) -> (yes: bool)
    ensures
        yes == suffix@.is_suffix_of(text@),
{
    let chars = chars_of(text);
    let tail = chars_of(suffix);
    if tail.len() > chars.len() {
        return false;
    }
    let from: usize = chars.len() - tail.len();
    let yes = starts_at(&chars, from, suffix);
    proof {
        let rest = chars@.skip(from as int);
        assert(rest.subrange(0, suffix@.len() as int) == text@.subrange(
            text@.len() - suffix@.len(),
            text@.len() as int,
        ));
    }
    yes
}

/// `needle` stands somewhere in `text`.
pub open spec fn contains(text: Seq<char>, needle: Seq<char>) -> bool {
    exists|at: int| #![trigger text.skip(at)]
        0 <= at <= text.len() && needle.is_prefix_of(text.skip(at))
}

/// Whether `needle` stands somewhere in `text`.
pub fn contains_text(text: &str, needle: &str) -> (yes: bool)
    ensures
        yes == contains(text@, needle@),
{
    let chars = chars_of(text);
    let mut at: usize = 0;
    loop
        invariant
            chars@ == text@,
            at <= chars@.len(),
            forall|i: int|
                0 <= i < at ==> !needle@.is_prefix_of(#[trigger] text@.skip(i)),
        decreases chars@.len() - at,
    {
        if starts_at(&chars, at, needle) {
            assert(needle@.is_prefix_of(text@.skip(at as int)));
            return true;
        }
        if at == chars.len() {
            return false;
        }
        at = at + 1;
    }
}

// Joining

/// Texts in a row with a separator between them.
pub open spec fn join(parts: Seq<Seq<char>>, separator: Seq<char>) -> Seq<char>
    decreases parts.len(),
{
    if parts.len() == 0 {
        Seq::empty()
    } else if parts.len() == 1 {
        parts[0]
    } else {
        join(parts.drop_last(), separator) + separator + parts.last()
    }
}

/// The strings from `from` on in a row with a separator between them.
pub(crate) fn join_strings(parts: &Vec<String>, from: usize, separator: &str) -> (joined: String)
    requires
        from <= parts@.len(),
    ensures
        joined@ == join(views(parts@).skip(from as int), separator@),
{
    let ghost all = views(parts@).skip(from as int);
    let mut joined = String::new();
    let mut i: usize = from;
    assert(all.take(0) == Seq::<Seq<char>>::empty());
    while i < parts.len()
        invariant
            from <= i <= parts@.len(),
            all == views(parts@).skip(from as int),
            joined@ == join(all.take(i - from), separator@),
        decreases parts@.len() - i,
    {
        proof {
            let k = i - from;
            assert(all.take(k + 1).drop_last() == all.take(k));
            assert(all[k] == parts@[i as int]@);
            assert(joined@ + all[k] == all[k] || k > 0);
        }
        if i > from {
            joined.append(separator);
        }
        joined.append(parts[i].as_str());
        i = i + 1;
    }
    assert(all.take(all.len() as int) == all);
    joined
}

/// Filtering a text that has nothing to keep leaves nothing.
pub proof fn lemma_filter_nothing(text: Seq<char>, keep: spec_fn(char) -> bool)
    requires
        forall|i: int| 0 <= i < text.len() ==> !keep(#[trigger] text[i]),
    ensures
        text.filter(keep) == Seq::<char>::empty(),
    decreases text.len(),
{
    reveal(Seq::filter);
    if text.len() > 0 {
        lemma_filter_nothing(text.drop_last(), keep);
    }
}

// Decimal numbers

/// A number in decimal digits, without leading zeros.
pub open spec fn decimal(n: nat) -> Seq<char>
    decreases n,
{
    if n < 10 {
        seq![digit(n)]
    } else {
        decimal(n / 10).push(digit(n % 10))
    }
}

/// The digit for a value below ten.
pub open spec fn digit(n: nat) -> char {
    (n + 0x30) as char
}

/// Append a number in decimal digits to a string.
pub fn push_decimal(out: &mut String, n: u64)
    ensures
        final(out)@ == old(out)@ + decimal(n as nat),
    decreases n,
{
    if n >= 10 {
        push_decimal(out, n / 10);
    }
    let value: u8 = (n % 10) as u8;
    let ch: char = (value + 0x30) as char;
    out.push(ch);
}

/// A number in decimal digits.
pub fn decimal_string(n: u64) -> (text: String)
    ensures
        text@ == decimal(n as nat),
{
    let mut text = String::new();
    push_decimal(&mut text, n);
    text
}

// Laws

/// Texts are joined in order with the separator between any two of them and nowhere else.
pub proof fn law_joining_adds_up(a: Seq<Seq<char>>, b: Seq<Seq<char>>, separator: Seq<char>)
    requires
        a.len() > 0,
        b.len() > 0,
    ensures
        join(a + b, separator) == join(a, separator) + separator + join(b, separator),
        a.len() == 1 ==> join(a, separator) == a[0],
    decreases b.len(),
{
    let whole = a + b;
    assert(whole.last() == b.last());
    if b.len() == 1 {
        assert(whole.drop_last() == a);
    } else {
        let init = b.drop_last();
        law_joining_adds_up(a, init, separator);
        assert(whole.drop_last() == a + init);
        assert(join(whole, separator) == join(a, separator) + separator + (join(init, separator)
            + separator + b.last()));
    }
}

/// The number that decimal digits stand for.
pub open spec fn number_read(digits: Seq<char>) -> nat
    decreases digits.len(),
{
    if digits.len() == 0 {
        0
    } else {
        number_read(digits.drop_last()) * 10 + (digits.last() as int - '0' as int) as nat
    }
}

/// Numbers read back: the digits of a number stand for it, are digits, and have no zero
/// too many in front.
pub proof fn law_numbers_read_back(n: nat)
    ensures
        number_read(decimal(n)) == n,
        decimal(n).len() > 0,
        forall|i: int| 0 <= i < decimal(n).len() ==> '0' <= #[trigger] decimal(n)[i] <= '9',
        n > 0 ==> decimal(n)[0] != '0',
        n == 0 ==> decimal(n).len() == 1,
    decreases n,
{
    let text = decimal(n);
    if n >= 10 {
        law_numbers_read_back(n / 10);
        assert(text.drop_last() == decimal(n / 10));
        assert(text[0] == decimal(n / 10)[0]);
    } else {
        assert(text.drop_last() == Seq::<char>::empty());
        assert(number_read(Seq::<char>::empty()) == 0);
    }
}

/// A text stands in another exactly when it is a part of it.
pub proof fn law_a_text_stands_where_it_is_a_part(
    text: Seq<char>,
    front: Seq<char>,
    needle: Seq<char>,
    back: Seq<char>,
)
    ensures
        text == front + needle + back ==> contains(text, needle),
        contains(text, needle) ==> exists|a: Seq<char>, b: Seq<char>|
            text == #[trigger] (a + needle + b),
{
    if text == front + needle + back {
        let rest = text.skip(front.len() as int);
        assert(rest.subrange(0, needle.len() as int) == needle);
    }
    if contains(text, needle) {
        let at = choose|at: int| #![trigger text.skip(at)]
            0 <= at <= text.len() && needle.is_prefix_of(text.skip(at));
        let rest = text.skip(at);
        assert(needle == rest.subrange(0, needle.len() as int));
        assert(text == text.take(at) + needle + rest.skip(needle.len() as int));
    }
}

/// A line is what stands before its line feed, or carriage return and line feed, and a text
/// has as many lines as it has ends of them, with one more for what follows the last.
pub proof fn law_a_line_ends_at_its_line_feed(line: Seq<char>, back: Seq<char>)
    requires
        !line.contains('\n'),
        line.len() > 0 ==> line.last() != '\r',
    ensures
        lines(line.push('\n') + back) == seq![line] + lines(back),
        lines(line + seq!['\r', '\n'] + back) == seq![line] + lines(back),
        line.len() > 0 ==> lines(line) == seq![line],
{
    let cut = |line: Seq<char>| chomp(line);
    assert forall|i: int| 0 <= i < line.len() implies #[trigger] line[i] != '\n' by {
        assert(line.contains(line[i]));
    }
    let first = line.push('\n');
    lemma_single_row(first, '\n');
    law_rows_begin_anew_behind_a_mark(line, '\n', back);
    assert(first.drop_last() == line);
    assert(lines(first + back) == seq![line] + lines(back));
    let returned = line.push('\r');
    let second = returned.push('\n');
    lemma_single_row(second, '\n');
    law_rows_begin_anew_behind_a_mark(returned, '\n', back);
    assert(second + back == line + seq!['\r', '\n'] + back);
    assert(second.drop_last() == returned);
    assert(returned.drop_last() == line);
    assert(lines(second + back) == seq![line] + lines(back));
    if line.len() > 0 {
        lemma_single_row(line, '\n');
        assert(lines(line) == seq![line]);
    }
}

} // verus!
