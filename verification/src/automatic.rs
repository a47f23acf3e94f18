//! Deciding when a copy is restored automatically.
//!
//! A watcher runs beside the wrapped command and looks at the clipboard at
//! intervals. What it does next is decided here from what it has seen; reading
//! the clipboard, asking for the frontmost application and starting processes is
//! left to the program around it.

pub use crate::watcher::watch;

use vstd::prelude::*;
use vstd::utf8::{encode_utf8, valid_utf8};

use crate::bytes::{decode, decoded, law_texts_read_back};
use crate::herdr::{find_pane, law_a_pane_is_found_by_its_id, pane_of, Pane};
use crate::text::{
    blank, chars_of, contains, contains_text, decimal, decimal_string, drop_white_space, first_of,
    law_blank_texts_trim_to_nothing, law_trimming_takes_white_space_alone,
    law_numbers_read_back, law_trimming_twice_is_trimming_once, lemma_first_of, lemma_trim_end,
    number_read, string_of, string_view, trim, trim_end, trimmed, views, white_space,
};

verus! {

// Terminal applications

/// The text in lower case.
pub uninterp spec fn lowercase(text: Seq<char>) -> Seq<char>;

/// `str::to_lowercase` gives the lower-case form of a text by the Unicode rules.
/// It depends on the text alone, and since every character becomes one or more,
/// nothing is left of the empty text only.
#[verifier::external_body]
fn to_lowercase(text: &str) -> (lower: String)
    ensures
        lower@ == lowercase(text@),
        text@.len() > 0 ==> lower@.len() > 0,
{
    text.to_lowercase()
}

/// The application in front of all others.
#[derive(Debug, PartialEq, Eq)]
pub struct FrontmostApplication {
    pub name: String,
    pub bundle_id: String,
}

/// An application as an answer gives it: it has a name or a bundle id, and no
/// white space around either.
pub open spec fn identified(app: FrontmostApplication) -> bool {
    &&& trim(app.name@) == app.name@
    &&& trim(app.bundle_id@) == app.bundle_id@
    &&& app.name@.len() > 0 || app.bundle_id@.len() > 0
}

/// What is before the first tab of an answer, without the white space around it.
pub open spec fn answered_name(output: Seq<char>) -> Seq<char> {
    let text = trim_end(output);
    trim(text.take(first_of(text, '\t') as int))
}

/// What is behind the first tab of an answer, without the white space around it.
pub open spec fn answered_bundle(output: Seq<char>) -> Seq<char> {
    let text = trim_end(output);
    let tab = first_of(text, '\t') as int;
    if tab < text.len() {
        trim(text.skip(tab + 1))
    } else {
        Seq::empty()
    }
}

/// The answer names no application.
#[derive(Debug)]
pub struct NoApplication;

impl NoApplication {
    /// The error in words.
    pub fn message(&self) -> (text: &'static str)
        ensures
            text@ == "frontmost application was empty"@,
    {
        "frontmost application was empty"
    }
}

/// The characters `from..to` without the white space around them.
fn trimmed_range(chars: &Vec<char>, from: usize, to: usize) -> (text: String)
    requires
        from <= to <= chars@.len(),
    ensures
        text@ == trim(chars@.subrange(from as int, to as int)),
{
    let part = string_of(chars, from, to);
    trimmed(part.as_str())
}

/// Read the name and the bundle id of an application from the answer to a query:
/// two fields with a tab between them.
pub fn parse_frontmost_application(output: &str) -> (app: Result<
    FrontmostApplication,
    NoApplication,
>)
    ensures
        match app {
            Ok(app) => {
                &&& app.name@ == answered_name(output@)
                &&& app.bundle_id@ == answered_bundle(output@)
                &&& identified(app)
            },
            Err(_) => answered_name(output@).len() == 0 && answered_bundle(output@).len() == 0,
        },
{
    let chars = chars_of(output);
    let end: usize = drop_white_space(&chars, 0, chars.len());
    let ghost text = trim_end(output@);
    proof {
        assert(chars@.subrange(0, chars@.len() as int) == output@);
        assert(text == chars@.subrange(0, end as int));
    }
    let mut tab: usize = 0;
    while tab < end && chars[tab] != '\t'
        invariant
            tab <= end <= chars@.len(),
            forall|i: int| 0 <= i < tab ==> #[trigger] chars@[i] != '\t',
        decreases end - tab,
    {
        tab = tab + 1;
    }
    proof {
        lemma_first_of(text, '\t', tab as int);
        assert(text.take(tab as int) == chars@.subrange(0, tab as int));
    }
    let name = trimmed_range(&chars, 0, tab);
    let bundle_id = if tab < end {
        assert(text.skip(tab + 1) == chars@.subrange(tab + 1, end as int));
        trimmed_range(&chars, tab + 1, end)
    } else {
        String::new()
    };
    proof {
        law_trimming_twice_is_trimming_once(text.take(tab as int));
        law_trimming_twice_is_trimming_once(text.skip(tab + 1));
        law_blank_texts_trim_to_nothing(Seq::empty());
        assert(trim(Seq::empty()) == Seq::<char>::empty());
    }
    if name.as_str().is_empty() && bundle_id.as_str().is_empty() {
        return Err(NoApplication);
    }
    Ok(FrontmostApplication { name, bundle_id })
}

/// Every text stands in itself.
proof fn lemma_contains_itself(text: Seq<char>)
    ensures
        contains(text, text),
{
    assert(text.skip(0) == text);
}

/// A filter hits an application when it stands in its name or its bundle id. An
/// empty filter hits nothing. All texts are in lower case.
pub open spec fn filter_hits(name: Seq<char>, bundle_id: Seq<char>, filter: Seq<char>) -> bool {
    filter.len() > 0 && (contains(name, filter) || contains(bundle_id, filter))
}

/// An application matches a filter when the filter, without the white space around
/// it, stands in its name or its bundle id, whatever the case of either. A blank
/// filter matches nothing.
pub open spec fn matches_filter(app: FrontmostApplication, filter: Seq<char>) -> bool {
    let wanted = lowercase(trim(filter));
    &&& trim(filter).len() > 0
    &&& contains(lowercase(app.name@), wanted) || contains(lowercase(app.bundle_id@), wanted)
}

/// The applications that count as terminals when nothing else is known.
pub open spec fn default_terminal(app: FrontmostApplication) -> bool {
    matches_filter(app, "Ghostty"@) || matches_filter(app, "cmux"@)
}

/// An application matches one of the filters, or a default one if there are
/// none.
pub open spec fn allowed_terminal(app: FrontmostApplication, filters: Seq<Seq<char>>) -> bool {
    if filters.len() == 0 {
        default_terminal(app)
    } else {
        exists|i: int| 0 <= i < filters.len() && matches_filter(app, #[trigger] filters[i])
    }
}

/// Whether a filter hits a name or a bundle id, all of them in lower case.
pub fn is_filter_hit(name: &str, bundle_id: &str, filter: &str) -> (yes: bool)
    ensures
        yes == filter_hits(name@, bundle_id@, filter@),
{
    if filter.is_empty() {
        return false;
    }
    contains_text(name, filter) || contains_text(bundle_id, filter)
}

/// Whether an application matches a filter, whatever the case of either. It
/// matches its own name and its own bundle id, and no blank filter.
pub fn app_matches_filter(app: &FrontmostApplication, filter: &str) -> (yes: bool)
    ensures
        yes == matches_filter(*app, filter@),
        yes ==> trim(filter@).len() > 0,
        trim(filter@).len() > 0 && (trim(filter@) == app.name@ || trim(filter@) == app.bundle_id@)
            ==> yes,
{
    proof {
        lemma_contains_itself(lowercase(trim(filter@)));
    }
    let inner = trimmed(filter);
    if inner.as_str().is_empty() {
        return false;
    }
    let wanted = to_lowercase(inner.as_str());
    is_filter_hit(
        to_lowercase(app.name.as_str()).as_str(),
        to_lowercase(app.bundle_id.as_str()).as_str(),
        wanted.as_str(),
    )
}

/// Whether an application may trigger restoration. The one that the filters in use
/// were taken from may.
pub fn is_allowed_terminal(app: &FrontmostApplication, configured: &[String]) -> (yes: bool)
    ensures
        yes == allowed_terminal(*app, views(configured@)),
        identified(*app) && views(configured@) == filters_in_use(Seq::empty(), Some(*app)) ==> yes,
{
    proof {
        if identified(*app) {
            law_the_launching_application_is_allowed(*app);
        }
    }
    if configured.len() == 0 {
        return app_matches_filter(app, "Ghostty") || app_matches_filter(app, "cmux");
    }
    let ghost filters = views(configured@);
    let mut i: usize = 0;
    while i < configured.len()
        invariant
            i <= configured@.len(),
            filters == views(configured@),
            forall|k: int| 0 <= k < i ==> !matches_filter(*app, #[trigger] filters[k]),
        decreases configured@.len() - i,
    {
        assert(filters[i as int] == configured@[i as int]@);
        if app_matches_filter(app, configured[i].as_str()) {
            return true;
        }
        i = i + 1;
    }
    false
}

/// The filters in use: those configured, or else the name and the bundle id of
/// the application that the wrapper was started from.
pub open spec fn filters_in_use(
    configured: Seq<Seq<char>>,
    launched_from: Option<FrontmostApplication>,
) -> Seq<Seq<char>> {
    if configured.len() > 0 {
        configured
    } else {
        match launched_from {
            Some(app) => {
                let name = if app.name@.len() > 0 {
                    seq![app.name@]
                } else {
                    Seq::empty()
                };
                if app.bundle_id@.len() > 0 {
                    name.push(app.bundle_id@)
                } else {
                    name
                }
            },
            None => Seq::empty(),
        }
    }
}

/// A copy of a list of strings.
fn copy_all(texts: &[String]) -> (copy: Vec<String>)
    ensures
        views(copy@) == views(texts@),
{
    let mut copy: Vec<String> = Vec::new();
    let mut i: usize = 0;
    while i < texts.len()
        invariant
            i <= texts@.len(),
            copy@.len() == i,
            forall|k: int| 0 <= k < i ==> (#[trigger] copy@[k])@ == texts@[k]@,
        decreases texts@.len() - i,
    {
        copy.push(texts[i].clone());
        i = i + 1;
    }
    assert(views(copy@) == views(texts@));
    copy
}

/// The filters in use.
pub fn terminal_filters(
    configured: &[String],
    launched_from: Option<&FrontmostApplication>,
) -> (filters: Vec<String>)
    ensures
        views(filters@) == filters_in_use(
            views(configured@),
            match launched_from {
                Some(app) => Some(*app),
                None => None,
            },
        ),
{
    if configured.len() > 0 {
        return copy_all(configured);
    }
    let mut filters: Vec<String> = Vec::new();
    assert(views(filters@) == Seq::<Seq<char>>::empty());
    if let Some(app) = launched_from {
        if !app.name.as_str().is_empty() {
            filters.push(app.name.clone());
            assert(views(filters@) == seq![app.name@]);
        }
        let ghost before = views(filters@);
        if !app.bundle_id.as_str().is_empty() {
            filters.push(app.bundle_id.clone());
            assert(views(filters@) == before.push(app.bundle_id@));
        }
    }
    filters
}

/// A pane is focused and running Codex.
pub open spec fn focused_codex_pane(panes: Seq<Pane>, id: Seq<char>) -> bool {
    match pane_of(panes, id) {
        Some(pane) => pane.focused && pane.codex() is Some,
        None => false,
    }
}

/// Whether a pane is focused and running Codex.
pub fn is_focused_codex_pane(panes: &[Pane], pane_id: &str) -> (yes: bool)
    ensures
        yes == focused_codex_pane(panes@, pane_id@),
{
    match find_pane(panes, pane_id) {
        Some(pane) => pane.focused && pane.codex_session().is_some(),
        None => false,
    }
}

/// Case does not matter: filters that are the same in lower case, once the white
/// space around them is gone, match the same applications, as long as both or
/// neither of them are blank, and applications that are the same in lower case match
/// the same filters.
pub proof fn law_filters_ignore_case(
    app: FrontmostApplication,
    other: FrontmostApplication,
    filter: Seq<char>,
    same: Seq<char>,
)
    requires
        blank(filter) <==> blank(same),
    ensures
        lowercase(trim(filter)) == lowercase(trim(same)) && lowercase(app.name@) == lowercase(
            other.name@,
        ) && lowercase(app.bundle_id@) == lowercase(other.bundle_id@) ==> matches_filter(
            app,
            filter,
        ) == matches_filter(other, same),
{
    law_blank_texts_trim_to_nothing(filter);
    law_blank_texts_trim_to_nothing(same);
}

/// Blank filters match no application, and a list of nothing else allows none.
pub proof fn law_blank_filters_match_nothing(
    app: FrontmostApplication,
    filters: Seq<Seq<char>>,
)
    requires
        filters.len() > 0,
        forall|i: int| 0 <= i < filters.len() ==> blank(#[trigger] filters[i]),
    ensures
        forall|i: int| 0 <= i < filters.len() ==> !matches_filter(app, #[trigger] filters[i]),
        !allowed_terminal(app, filters),
{
    assert forall|i: int| 0 <= i < filters.len() implies !matches_filter(
        app,
        #[trigger] filters[i],
    ) by {
        law_blank_texts_trim_to_nothing(filters[i]);
    }
}

/// No filters are as good as the two default ones.
pub proof fn law_no_filters_stand_for_the_default_ones(app: FrontmostApplication)
    ensures
        allowed_terminal(app, Seq::empty()) == allowed_terminal(app, seq!["Ghostty"@, "cmux"@]),
{
    let filters = seq!["Ghostty"@, "cmux"@];
    assert(matches_filter(app, filters[0]) == matches_filter(app, "Ghostty"@));
    assert(matches_filter(app, filters[1]) == matches_filter(app, "cmux"@));
}

/// Configured filters are used as they are, whatever application the wrapper was
/// started from.
pub proof fn law_configured_filters_are_kept(
    configured: Seq<Seq<char>>,
    launched_from: Option<FrontmostApplication>,
)
    requires
        configured.len() > 0,
    ensures
        filters_in_use(configured, launched_from) == configured,
{
}

/// The application that the wrapper was started from passes the filters that were
/// taken from it.
pub proof fn law_the_launching_application_is_allowed(app: FrontmostApplication)
    requires
        identified(app),
    ensures
        allowed_terminal(app, filters_in_use(Seq::empty(), Some(app))),
{
    let filters = filters_in_use(Seq::empty(), Some(app));
    lemma_contains_itself(lowercase(trim(filters[0])));
    assert(matches_filter(app, filters[0]));
}

/// A filter allows an application exactly when, without the white space around it and in
/// lower case, it is a part of the name or of the bundle id in lower case, and is not
/// blank.
pub proof fn law_a_filter_allows_what_it_is_part_of(
    app: FrontmostApplication,
    filter: Seq<char>,
    front: Seq<char>,
    back: Seq<char>,
)
    requires
        !blank(filter),
    ensures
        lowercase(app.name@) == front + lowercase(trim(filter)) + back ==> allowed_terminal(
            app,
            seq![filter],
        ),
        lowercase(app.bundle_id@) == front + lowercase(trim(filter)) + back ==> allowed_terminal(
            app,
            seq![filter],
        ),
        allowed_terminal(app, seq![filter]) ==> exists|a: Seq<char>, b: Seq<char>|
            {
                let whole = #[trigger] (a + lowercase(trim(filter)) + b);
                lowercase(app.name@) == whole || lowercase(app.bundle_id@) == whole
            },
{
    let wanted = lowercase(trim(filter));
    law_blank_texts_trim_to_nothing(filter);
    assert(seq![filter][0] == filter);
    lemma_contains_part(lowercase(app.name@), front, wanted, back);
    lemma_contains_part(lowercase(app.bundle_id@), front, wanted, back);
    if allowed_terminal(app, seq![filter]) {
        let whole = if contains(lowercase(app.name@), wanted) {
            lowercase(app.name@)
        } else {
            lowercase(app.bundle_id@)
        };
        let at = choose|at: int| #![trigger whole.skip(at)]
            0 <= at <= whole.len() && wanted.is_prefix_of(whole.skip(at));
        let rest = whole.skip(at);
        assert(wanted == rest.subrange(0, wanted.len() as int));
        assert(whole == whole.take(at) + wanted + rest.skip(wanted.len() as int));
    }
}

/// A part of a text stands in it.
proof fn lemma_contains_part(
    whole: Seq<char>,
    front: Seq<char>,
    part: Seq<char>,
    back: Seq<char>,
)
    ensures
        whole == front + part + back ==> contains(whole, part),
{
    if whole == front + part + back {
        let rest = whole.skip(front.len() as int);
        assert(rest.subrange(0, part.len() as int) == part);
    }
}

/// One more filter allows what it allows by itself and what the others allow, unless there
/// were none, which stand for the default ones.
pub proof fn law_filters_add_up(
    app: FrontmostApplication,
    filters: Seq<Seq<char>>,
    filter: Seq<char>,
)
    requires
        filters.len() > 0,
    ensures
        allowed_terminal(app, filters.push(filter)) == (allowed_terminal(app, filters)
            || allowed_terminal(app, seq![filter])),
{
    let more = filters.push(filter);
    assert(seq![filter][0] == filter);
    assert(more[filters.len() as int] == filter);
    if allowed_terminal(app, filters) {
        let i = choose|i: int| 0 <= i < filters.len() && matches_filter(app, #[trigger] filters[i]);
        assert(more[i] == filters[i]);
    }
    if allowed_terminal(app, more) {
        let i = choose|i: int| 0 <= i < more.len() && matches_filter(app, #[trigger] more[i]);
        if i < filters.len() {
            assert(filters[i] == more[i]);
        }
    }
}

/// An answer reads back: a name and a bundle id with a tab between them, whatever they
/// are, come out as they went in.
pub proof fn law_an_answer_reads_back(name: Seq<char>, bundle_id: Seq<char>)
    requires
        trim(name) == name,
        trim(bundle_id) == bundle_id,
        !name.contains('\t'),
    ensures
        bundle_id.len() > 0 ==> answered_name(name + seq!['\t'] + bundle_id + seq!['\n']) == name,
        bundle_id.len() > 0 ==> answered_bundle(name + seq!['\t'] + bundle_id + seq!['\n'])
            == bundle_id,
        name.len() > 0 ==> answered_name(name + seq!['\n']) == name,
        name.len() > 0 ==> answered_bundle(name + seq!['\n']) == Seq::<char>::empty(),
{
    if bundle_id.len() > 0 {
        lemma_answer_in_two(name, bundle_id);
    }
    if name.len() > 0 {
        lemma_answer_in_one(name);
    }
}

/// What is read from a name and a bundle id with a tab between them.
proof fn lemma_answer_in_two(name: Seq<char>, bundle_id: Seq<char>)
    requires
        trim(name) == name,
        trim(bundle_id) == bundle_id,
        bundle_id.len() > 0,
        !name.contains('\t'),
    ensures
        answered_name(name + seq!['\t'] + bundle_id + seq!['\n']) == name,
        answered_bundle(name + seq!['\t'] + bundle_id + seq!['\n']) == bundle_id,
{
    let whole = name + seq!['\t'] + bundle_id;
    let output = whole + seq!['\n'];
    let n = name.len() as int;
    assert(!white_space(bundle_id.last())) by {
        law_trimming_takes_white_space_alone(bundle_id);
    }
    assert(trim_end(output) == whole) by {
        assert(output[whole.len() - 1] == bundle_id.last());
        lemma_trim_end(output, whole.len() as int);
        assert(output.take(whole.len() as int) == whole);
    }
    assert(first_of(whole, '\t') == n) by {
        assert forall|i: int| 0 <= i < n implies #[trigger] whole[i] != '\t' by {
            assert(name.contains(name[i]));
        }
        lemma_first_of(whole, '\t', n);
    }
    assert(whole.take(n) == name);
    assert(whole.skip(n + 1) == bundle_id);
}

/// What is read from a name alone.
proof fn lemma_answer_in_one(name: Seq<char>)
    requires
        trim(name) == name,
        name.len() > 0,
        !name.contains('\t'),
    ensures
        answered_name(name + seq!['\n']) == name,
        answered_bundle(name + seq!['\n']) == Seq::<char>::empty(),
{
    let output = name + seq!['\n'];
    let n = name.len() as int;
    assert(!white_space(name.last())) by {
        law_trimming_takes_white_space_alone(name);
    }
    assert(trim_end(output) == name) by {
        assert(output[n - 1] == name.last());
        lemma_trim_end(output, n);
        assert(output.take(n) == name);
    }
    assert(first_of(name, '\t') == n) by {
        assert forall|i: int| 0 <= i < n implies #[trigger] name[i] != '\t' by {
            assert(name.contains(name[i]));
        }
        lemma_first_of(name, '\t', n);
    }
    assert(name.take(n) == name);
}

/// A pane counts as focused exactly when the first one with its id has the focus and runs
/// a Codex session.
pub proof fn law_a_focused_pane_runs_codex(panes: Seq<Pane>, k: int, id: Seq<char>)
    requires
        0 <= k < panes.len(),
        panes[k].pane_id@ == id,
        forall|i: int| 0 <= i < k ==> (#[trigger] panes[i]).pane_id@ != id,
    ensures
        focused_codex_pane(panes, id) <==> panes[k].focused && string_view(panes[k].agent) == Some(
            "codex"@,
        ) && (panes[k].agent_session matches Some(session) && session.value is Some),
{
    law_a_pane_is_found_by_its_id(panes, k, id);
}

// Starting processes

/// How a watcher was started.
#[derive(Debug)]
pub struct WatchOptions {
    pub parent_pid: u32,
    pub pane: Option<String>,
    pub terminal_apps: Vec<String>,
    pub poll_ms: u64,
    pub min_chars: usize,
    pub scan_limit: usize,
}

/// The pause between two looks at the clipboard, in milliseconds.
pub fn poll_interval(poll_ms: u64) -> (interval: u64)
    ensures
        interval == (if poll_ms < 10 {
            10
        } else {
            poll_ms as int
        }),
        interval >= 10 && interval >= poll_ms,
        interval == poll_ms || interval == 10,
{
    if poll_ms < 10 {
        10
    } else {
        poll_ms
    }
}

/// The arguments that name a pane, if there is one.
pub open spec fn pane_arguments(pane: Option<Seq<char>>) -> Seq<Seq<char>> {
    match pane {
        Some(id) => seq!["--pane"@, id],
        None => Seq::empty(),
    }
}

/// The arguments that name the terminal applications.
pub open spec fn terminal_arguments(apps: Seq<Seq<char>>) -> Seq<Seq<char>>
    decreases apps.len(),
{
    if apps.len() == 0 {
        Seq::empty()
    } else {
        terminal_arguments(apps.drop_last()).push("--terminal-app"@).push(apps.last())
    }
}

/// The arguments that a watcher is started with.
pub open spec fn watcher_arguments_of(options: WatchOptions) -> Seq<Seq<char>> {
    seq![
        "__watch"@,
        "--parent-pid"@,
        decimal(options.parent_pid as nat),
        "--poll-ms"@,
        decimal(options.poll_ms as nat),
        "--min-chars"@,
        decimal(options.min_chars as nat),
        "--scan-limit"@,
        decimal(options.scan_limit as nat),
    ] + pane_arguments(string_view(options.pane)) + terminal_arguments(
        views(options.terminal_apps@),
    )
}

/// The arguments that a restoration is started with: the selection comes in on
/// standard input, the result goes out on standard output, and nothing that was
/// not verified is returned.
pub open spec fn restore_arguments_of(options: WatchOptions) -> Seq<Seq<char>> {
    seq![
        "--stdin"@,
        "--stdout"@,
        "--fallback"@,
        "off"@,
        "--min-chars"@,
        decimal(options.min_chars as nat),
        "--scan-limit"@,
        decimal(options.scan_limit as nat),
    ] + pane_arguments(string_view(options.pane))
}

/// Append a text to a list of strings.
fn add_text(list: &mut Vec<String>, text: &str)
    ensures
        views(final(list)@) == views(old(list)@).push(text@),
{
    let ghost before = list@;
    list.push(text.to_string());
    assert(views(list@) == views(before).push(text@));
}

/// Append a number to a list of strings.
fn add_number(list: &mut Vec<String>, n: u64)
    ensures
        views(final(list)@) == views(old(list)@).push(decimal(n as nat)),
{
    let digits = decimal_string(n);
    add_text(list, digits.as_str());
}

/// Append the arguments that name a pane, if there is one.
fn add_pane(list: &mut Vec<String>, pane: &Option<String>)
    ensures
        views(final(list)@) == views(old(list)@) + pane_arguments(string_view(*pane)),
{
    let ghost before = views(list@);
    if let Some(id) = pane {
        add_text(list, "--pane");
        add_text(list, id.as_str());
        assert(views(list@) == before + seq!["--pane"@, id@]);
    }
}

/// The arguments that a watcher is started with.
pub fn watcher_arguments(options: &WatchOptions) -> (arguments: Vec<String>)
    ensures
        views(arguments@) == watcher_arguments_of(*options),
{
    let mut list: Vec<String> = Vec::new();
    add_text(&mut list, "__watch");
    add_text(&mut list, "--parent-pid");
    add_number(&mut list, options.parent_pid as u64);
    add_text(&mut list, "--poll-ms");
    add_number(&mut list, options.poll_ms);
    add_text(&mut list, "--min-chars");
    add_number(&mut list, options.min_chars as u64);
    add_text(&mut list, "--scan-limit");
    add_number(&mut list, options.scan_limit as u64);
    add_pane(&mut list, &options.pane);
    let ghost front = views(list@);
    let ghost apps = views(options.terminal_apps@);
    let mut i: usize = 0;
    assert(apps.take(0) == Seq::<Seq<char>>::empty());
    assert(front + terminal_arguments(apps.take(0)) == front);
    while i < options.terminal_apps.len()
        invariant
            i <= options.terminal_apps@.len(),
            apps == views(options.terminal_apps@),
            views(list@) == front + terminal_arguments(apps.take(i as int)),
        decreases options.terminal_apps@.len() - i,
    {
        proof {
            assert(apps.take(i + 1).drop_last() == apps.take(i as int));
            assert(apps.take(i + 1).last() == options.terminal_apps@[i as int]@);
        }
        add_text(&mut list, "--terminal-app");
        add_text(&mut list, options.terminal_apps[i].as_str());
        i = i + 1;
        assert(views(list@) == front + terminal_arguments(apps.take(i as int)));
    }
    proof {
        assert(apps.take(apps.len() as int) == apps);
        assert(views(list@) == watcher_arguments_of(*options));
    }
    list
}

/// The arguments that a restoration is started with.
pub fn restore_arguments(options: &WatchOptions) -> (arguments: Vec<String>)
    ensures
        views(arguments@) == restore_arguments_of(*options),
{
    let mut list: Vec<String> = Vec::new();
    add_text(&mut list, "--stdin");
    add_text(&mut list, "--stdout");
    add_text(&mut list, "--fallback");
    add_text(&mut list, "off");
    add_text(&mut list, "--min-chars");
    add_number(&mut list, options.min_chars as u64);
    add_text(&mut list, "--scan-limit");
    add_number(&mut list, options.scan_limit as u64);
    add_pane(&mut list, &options.pane);
    assert(views(list@) == restore_arguments_of(*options));
    list
}

/// The restored text was not UTF-8.
#[derive(Debug)]
pub struct NotText;

impl NotText {
    /// The error in words.
    pub fn message(&self) -> (text: &'static str)
        ensures
            text@ == "restored text was not valid UTF-8"@,
    {
        "restored text was not valid UTF-8"
    }
}

/// What a restoration that has ended found: nothing unless it succeeded, and
/// otherwise the text that it wrote.
pub fn restoration_result(success: bool, output: &[u8]) -> (restored: Result<
    Option<String>,
    NotText,
>)
    ensures
        match restored {
            Ok(None) => !success,
            Ok(Some(text)) => success && decoded(output@) == Some(text@),
            Err(_) => success && decoded(output@) is None,
        },
{
    if !success {
        return Ok(None);
    }
    match decode(output) {
        Some(text) => Ok(Some(text.to_string())),
        None => Err(NotText),
    }
}

// Laws of the arguments

/// A watcher is told all that it was asked to be started with: the process, the numbers as
/// they are, the pane if there is one, and every application.
pub proof fn law_a_watcher_is_told_everything(options: WatchOptions, k: int)
    requires
        0 <= k < options.terminal_apps@.len(),
    ensures
        ({
            let arguments = watcher_arguments_of(options);
            let apps = views(options.terminal_apps@);
            let base: int = if options.pane is Some {
                11
            } else {
                9
            };
            &&& arguments.len() == base + 2 * apps.len()
            &&& arguments[0] == "__watch"@
            &&& arguments[1] == "--parent-pid"@ && number_read(arguments[2]) == options.parent_pid
            &&& arguments[3] == "--poll-ms"@ && number_read(arguments[4]) == options.poll_ms
            &&& arguments[5] == "--min-chars"@ && number_read(arguments[6]) == options.min_chars
            &&& arguments[7] == "--scan-limit"@ && number_read(arguments[8]) == options.scan_limit
            &&& options.pane matches Some(id) ==> arguments[9] == "--pane"@ && arguments[10] == id@
            &&& arguments[base + 2 * k] == "--terminal-app"@
            &&& arguments[base + 2 * k + 1] == options.terminal_apps@[k]@
        }),
{
    let apps = views(options.terminal_apps@);
    lemma_terminal_arguments(apps, k);
    law_numbers_read_back(options.parent_pid as nat);
    law_numbers_read_back(options.poll_ms as nat);
    law_numbers_read_back(options.min_chars as nat);
    law_numbers_read_back(options.scan_limit as nat);
}

proof fn lemma_terminal_arguments(apps: Seq<Seq<char>>, k: int)
    requires
        0 <= k < apps.len(),
    ensures
        terminal_arguments(apps).len() == 2 * apps.len(),
        terminal_arguments(apps)[2 * k] == "--terminal-app"@,
        terminal_arguments(apps)[2 * k + 1] == apps[k],
    decreases apps.len(),
{
    let init = apps.drop_last();
    if init.len() > 0 {
        lemma_terminal_arguments(init, if k < init.len() { k } else { 0 });
    } else {
        assert(terminal_arguments(init) == Seq::<Seq<char>>::empty());
    }
}

/// A restoration is started on the selection of standard input, prints its result, and
/// returns nothing that was not verified; it is told the numbers and the pane.
pub proof fn law_a_restoration_is_told_everything(options: WatchOptions)
    ensures
        ({
            let arguments = restore_arguments_of(options);
            &&& arguments.len() == if options.pane is Some { 10int } else { 8int }
            &&& arguments[0] == "--stdin"@ && arguments[1] == "--stdout"@
            &&& arguments[2] == "--fallback"@ && arguments[3] == "off"@
            &&& arguments[4] == "--min-chars"@ && number_read(arguments[5]) == options.min_chars
            &&& arguments[6] == "--scan-limit"@ && number_read(arguments[7]) == options.scan_limit
            &&& options.pane matches Some(id) ==> arguments[8] == "--pane"@ && arguments[9] == id@
        }),
{
    law_numbers_read_back(options.min_chars as nat);
    law_numbers_read_back(options.scan_limit as nat);
}

/// Both the name and the bundle id of the application that the wrapper was started from are
/// filters, as far as it has them, and without one there are none.
pub proof fn law_filters_are_taken_from_the_application(app: FrontmostApplication)
    ensures
        ({
            let filters = filters_in_use(Seq::empty(), Some(app));
            &&& app.name@.len() > 0 && app.bundle_id@.len() > 0 ==> filters == seq![
                app.name@,
                app.bundle_id@,
            ]
            &&& app.name@.len() > 0 && app.bundle_id@.len() == 0 ==> filters == seq![app.name@]
            &&& app.name@.len() == 0 && app.bundle_id@.len() > 0 ==> filters == seq![app.bundle_id@]
        }),
        filters_in_use(Seq::empty(), None) == Seq::<Seq<char>>::empty(),
{
}

/// The pause is what was asked for, and never below ten milliseconds.
pub proof fn law_the_pause_is_what_was_asked_for(poll_ms: u64, interval: u64)
    requires
        call_ensures(poll_interval, (poll_ms,), interval),
    ensures
        poll_ms >= 10 ==> interval == poll_ms,
        poll_ms < 10 ==> interval == 10,
{
}

/// What a restoration printed is what was restored, and a restoration that failed restored
/// nothing.
pub proof fn law_what_was_printed_was_restored(
    success: bool,
    output: &[u8],
    restored: Result<Option<String>, NotText>,
    text: Seq<char>,
)
    requires
        call_ensures(restoration_result, (success, output), restored),
    ensures
        !success ==> restored matches Ok(None),
        success && output@ == encode_utf8(text) ==> (restored matches Ok(Some(read)) && read@ == text),
        success && !valid_utf8(output@) ==> restored is Err,
{
    law_texts_read_back(text, output@);
}

} // verus!
