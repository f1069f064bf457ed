//! The Version page: which build of the game this profile runs, and which builds are
//! being kept.
//!
//! One list, one row per build, each carrying its own actions: a tick on the one this
//! profile uses, play to use it and launch now, and remove. The page offers what the
//! store holds and nothing else.

use crate::text::{
    decimal, join, joined, joining_goes_piece_by_piece, lists, push_decimal, same_text, texts,
};
use vstd::prelude::*;
use vstd::string::*;

verus! {

/// Said above the choice, not after a failure, because the failure it pre-empts looks
/// like the launcher breaking: the game refuses clients older than a minimum it sets
/// server-side, and every pin ends there eventually.
pub const SERVER_MINIMUM: &'static str =
    "Roblox stops accepting old versions whenever it chooses. A pinned build that starts refusing to join games has been retired by Roblox, not broken by Cordial.";

/// A build that the store keeps.
pub struct Entry {
    pub version: String,
    /// The Cordial that last got the engine through loading, if any is on record.
    pub loaded_by: Option<String>,
    /// How much room the build takes, in words.
    pub size: String,
    /// Whether the build was kept with its APK.
    pub complete: bool,
}

// ---- One build ----

/// What is said of who has loaded a build. No record at all is not a sign of trouble,
/// so it is worded as unknown.
pub open spec fn loaded_text(loaded_by: Option<Seq<char>>, this_cordial: Seq<char>) -> Seq<char> {
    match loaded_by {
        Some(v) => if v == this_cordial {
            "Loaded by this Cordial"@
        } else {
            "Last loaded by Cordial "@ + v
        },
        None => "Not loaded by Cordial yet"@,
    }
}

/// What is said of a build, piece by piece.
pub open spec fn description_parts(
    entry: Entry,
    current: Option<Seq<char>>,
    this_cordial: Seq<char>,
) -> Seq<Seq<char>> {
    let first = if current == Some(entry.version@) {
        seq!["Current build"@]
    } else {
        seq![]
    };
    let incomplete = if entry.complete {
        seq![]
    } else {
        seq!["kept without its APK, so it cannot be chosen"@]
    };
    first + seq![loaded_text(entry.loaded_by.deep_view(), this_cordial)] + incomplete + seq![
        entry.size@,
    ]
}

/// What a row says about one build, beneath its version number.
pub open spec fn description(
    entry: Entry,
    current: Option<Seq<char>>,
    this_cordial: Seq<char>,
) -> Seq<char> {
    joined(description_parts(entry, current, this_cordial), " · "@)
}

/// Whether `text` is there and is `wanted`.
fn is_that(text: Option<&str>, wanted: &str) -> (yes: bool)
    ensures
        yes == (text.deep_view() == Some(wanted@)),
{
    match text {
        Some(t) => same_text(t, wanted),
        None => false,
    }
}

/// What a row says about one build, beneath its version number.
pub fn describe(entry: &Entry, current: Option<&str>, this_cordial: &str) -> (line: String)
    ensures
        line@ == description(*entry, current.deep_view(), this_cordial@),
{
    let mut parts: Vec<String> = Vec::new();
    if is_that(current, entry.version.as_str()) {
        parts.push("Current build".to_owned());
    }
    match &entry.loaded_by {
        Some(v) => {
            if same_text(v.as_str(), this_cordial) {
                parts.push("Loaded by this Cordial".to_owned());
            } else {
                let mut loaded = "Last loaded by Cordial ".to_owned();
                loaded.append(v.as_str());
                parts.push(loaded);
            }
        },
        None => {
            parts.push("Not loaded by Cordial yet".to_owned());
        },
    }
    if !entry.complete {
        parts.push("kept without its APK, so it cannot be chosen".to_owned());
    }
    parts.push(entry.size.clone());
    assert(texts(parts@) =~= description_parts(*entry, current.deep_view(), this_cordial@));
    join(parts.as_slice(), " · ")
}

/// Why a build may not be removed, if there is a reason: it is the current one, or a
/// profile is pinned to it.
pub open spec fn removal_reason(
    version: Seq<char>,
    current: Option<Seq<char>>,
    pinned_anywhere: Seq<Seq<char>>,
) -> Option<Seq<char>> {
    if current == Some(version) {
        Some("The current build cannot be removed"@)
    } else if pinned_anywhere.contains(version) {
        Some("A profile is pinned to this build"@)
    } else {
        None
    }
}

/// Why a remove button is greyed out, or `None` when it is not.
pub fn removal_blocked(version: &str, current: Option<&str>, pinned_anywhere: &[String]) -> (why:
    Option<&'static str>)
    ensures
        why.deep_view() == removal_reason(version@, current.deep_view(), texts(pinned_anywhere@)),
{
    if is_that(current, version) {
        Some("The current build cannot be removed")
    } else if lists(pinned_anywhere, version) {
        Some("A profile is pinned to this build")
    } else {
        None
    }
}

/// A row's subtitle: that the row is active comes first.
pub open spec fn subtitle_text(active: bool, detail: Seq<char>) -> Seq<char> {
    if active {
        "Active — used on launch · "@ + detail
    } else {
        detail
    }
}

/// The row's subtitle, led by the fact that matters most when it is true.
pub fn subtitle(active: bool, detail: &str) -> (text: String)
    ensures
        text@ == subtitle_text(active, detail@),
{
    if active {
        let mut text = "Active — used on launch · ".to_owned();
        text.append(detail);
        text
    } else {
        detail.to_owned()
    }
}

// ---- The page ----

/// What the page is about.
pub struct State {
    /// The profile's name.
    pub profile: String,
    /// Why the profile has no place to keep a pin, if it has none.
    pub unusable: Option<String>,
    /// The version that the profile is pinned to.
    pub pinned: Option<String>,
    /// The version of the current build.
    pub current: Option<String>,
    /// The builds that are kept.
    pub entries: Vec<Entry>,
    /// The versions that any profile is pinned to.
    pub pinned_anywhere: Vec<String>,
    /// The version of this Cordial.
    pub this_cordial: String,
    /// How many of the newest builds the store keeps.
    pub keep: u64,
}

/// A row that only says something.
pub struct Row {
    pub title: String,
    pub subtitle: String,
}

/// The row that follows the current build.
pub struct FollowRow {
    pub title: String,
    pub subtitle: String,
    /// Whether the row has the tick.
    pub active: bool,
}

/// The row of one build.
pub struct BuildRow {
    pub version: String,
    pub title: String,
    pub subtitle: String,
    /// Whether the row has the tick.
    pub active: bool,
    /// Whether the build can be used and played. An engine without its own APK would
    /// run against another version's assets, so it is not offered.
    pub choosable: bool,
    /// Why the build cannot be removed, if it cannot.
    pub removal_blocked: Option<&'static str>,
}

/// The rows of a profile that can hold a pin, in order.
pub struct Builds {
    pub follow: FollowRow,
    /// The build that the profile is pinned to and that is no longer there.
    pub lost_pin: Option<Row>,
    pub rows: Vec<BuildRow>,
    /// Said when there are no builds.
    pub empty: Option<Row>,
    /// Said below the list when there are builds.
    pub note: Option<String>,
}

/// What the list holds.
pub enum Body {
    /// The profile cannot hold a pin.
    NoPin(Row),
    Builds(Builds),
}

/// The Version page.
pub struct Page {
    pub title: String,
    pub description: &'static str,
    pub body: Body,
}

/// A build of version `version` is kept.
pub open spec fn keeps(entries: Seq<Entry>, version: Seq<char>) -> bool {
    exists|i: int| 0 <= i < entries.len() && (#[trigger] entries[i]).version@ == version
}

/// What following the current build comes to.
pub open spec fn follow_detail(current: Option<Seq<char>>) -> Seq<char> {
    match current {
        Some(v) => "Roblox "@ + v + " now, and newer builds as they are installed"@,
        None => "Whichever build Cordial has, and newer builds as they are installed"@,
    }
}

/// `row` says these two things.
pub open spec fn says(row: Row, title: Seq<char>, subtitle: Seq<char>) -> bool {
    row.title@ == title && row.subtitle@ == subtitle
}

/// `row` is the row of `entry`.
pub open spec fn shows_build(row: BuildRow, entry: Entry, state: State) -> bool {
    &&& row.version@ == entry.version@
    &&& row.title@ == "Roblox "@ + entry.version@
    &&& row.active == (state.pinned.deep_view() == Some(entry.version@))
    &&& row.subtitle@ == subtitle_text(
        row.active,
        description(entry, state.current.deep_view(), state.this_cordial@),
    )
    &&& row.choosable == entry.complete
    &&& row.removal_blocked.deep_view() == removal_reason(
        entry.version@,
        state.current.deep_view(),
        texts(state.pinned_anywhere@),
    )
}

/// `builds` is what a profile that can hold a pin is shown.
pub open spec fn shows_builds(builds: Builds, state: State) -> bool {
    &&& builds.follow.title@ == "Follow the current build"@
    &&& builds.follow.active == (state.pinned is None)
    &&& builds.follow.subtitle@ == subtitle_text(
        builds.follow.active,
        follow_detail(state.current.deep_view()),
    )
    &&& match (builds.lost_pin, state.pinned) {
        (Some(row), Some(pin)) => {
            &&& !keeps(state.entries@, pin@)
            &&& says(
                row,
                "Roblox "@ + pin@,
                "Pinned, but Cordial no longer has this build. This profile will not launch until you choose another."@,
            )
        },
        (Some(_), None) => false,
        (None, Some(pin)) => keeps(state.entries@, pin@),
        (None, None) => true,
    }
    &&& builds.rows@.len() == state.entries@.len()
    &&& forall|i: int|
        0 <= i < builds.rows@.len() ==> shows_build(
            #[trigger] builds.rows@[i],
            state.entries@[i],
            state,
        )
    &&& match builds.empty {
        Some(row) => state.entries@.len() == 0 && says(
            row,
            "No builds kept yet"@,
            "Cordial keeps a build here once it knows which version it is, which happens the next time Roblox launches or updates."@,
        ),
        None => state.entries@.len() > 0,
    }
    &&& match builds.note {
        Some(note) => state.entries@.len() > 0 && note@ == "Cordial keeps the newest "@ + decimal(
            state.keep as nat,
        )
            + " and any build a profile is pinned to. Removing one does not touch APKs that came from Sober."@,
        None => state.entries@.len() == 0,
    }
}

/// `page` is the page for `state`.
pub open spec fn shows(page: Page, state: State) -> bool {
    &&& page.title@ == "Roblox version for "@ + state.profile@
    &&& page.description@ == SERVER_MINIMUM@
    &&& match (page.body, state.unusable) {
        (Body::NoPin(row), Some(why)) => says(row, "This profile cannot hold a pin"@, why@),
        (Body::Builds(builds), None) => shows_builds(builds, state),
        _ => false,
    }
}

/// The text of a string that may not be there.
fn borrowed(text: &Option<String>) -> (borrowed: Option<&str>)
    ensures
        borrowed.deep_view() == text.deep_view(),
{
    match text {
        Some(t) => Some(t.as_str()),
        None => None,
    }
}

/// `a` and then `b`.
fn two(a: &str, b: &str) -> (text: String)
    ensures
        text@ == a@ + b@,
{
    let mut text = a.to_owned();
    text.append(b);
    text
}

/// Whether a build of version `version` is kept.
pub fn keeps_version(entries: &[Entry], version: &str) -> (found: bool)
    ensures
        found == keeps(entries@, version@),
{
    let mut i: usize = 0;
    while i < entries.len()
        invariant
            i <= entries@.len(),
            forall|j: int| 0 <= j < i ==> (#[trigger] entries@[j]).version@ != version@,
        decreases entries@.len() - i,
    {
        if same_text(entries[i].version.as_str(), version) {
            return true;
        }
        i += 1;
    }
    false
}

/// The row of one build.
fn build_row(entry: &Entry, state: &State) -> (row: BuildRow)
    ensures
        shows_build(row, *entry, *state),
{
    let active = is_that(borrowed(&state.pinned), entry.version.as_str());
    let detail = describe(entry, borrowed(&state.current), state.this_cordial.as_str());
    BuildRow {
        version: entry.version.clone(),
        title: two("Roblox ", entry.version.as_str()),
        subtitle: subtitle(active, detail.as_str()),
        active,
        choosable: entry.complete,
        removal_blocked: removal_blocked(
            entry.version.as_str(),
            borrowed(&state.current),
            state.pinned_anywhere.as_slice(),
        ),
    }
}

/// The row that follows the current build.
fn follow_row(state: &State) -> (row: FollowRow)
    ensures
        row.title@ == "Follow the current build"@,
        row.active == (state.pinned is None),
        row.subtitle@ == subtitle_text(row.active, follow_detail(state.current.deep_view())),
{
    let detail = match &state.current {
        Some(v) => {
            let mut detail = two("Roblox ", v.as_str());
            detail.append(" now, and newer builds as they are installed");
            detail
        },
        None => "Whichever build Cordial has, and newer builds as they are installed".to_owned(),
    };
    let active = state.pinned.is_none();
    FollowRow {
        title: "Follow the current build".to_owned(),
        subtitle: subtitle(active, detail.as_str()),
        active,
    }
}

/// What the Version page shows.
pub fn build_version_page(state: &State) -> (page: Page)
    ensures
        shows(page, *state),
{
    let title = two("Roblox version for ", state.profile.as_str());
    if let Some(why) = &state.unusable {
        let row = Row {
            title: "This profile cannot hold a pin".to_owned(),
            subtitle: why.clone(),
        };
        return Page { title, description: SERVER_MINIMUM, body: Body::NoPin(row) };
    }
    let mut lost_pin: Option<Row> = None;
    if let Some(pin) = &state.pinned {
        if !keeps_version(state.entries.as_slice(), pin.as_str()) {
            lost_pin = Some(
                Row {
                    title: two("Roblox ", pin.as_str()),
                    subtitle: "Pinned, but Cordial no longer has this build. This profile will not launch until you choose another.".to_owned(),
                },
            );
        }
    }
    let mut rows: Vec<BuildRow> = Vec::new();
    let mut i: usize = 0;
    while i < state.entries.len()
        invariant
            i <= state.entries@.len(),
            rows@.len() == i,
            forall|j: int|
                0 <= j < i ==> shows_build(#[trigger] rows@[j], state.entries@[j], *state),
        decreases state.entries@.len() - i,
    {
        rows.push(build_row(&state.entries[i], state));
        i += 1;
    }
    let mut empty: Option<Row> = None;
    let mut note: Option<String> = None;
    if state.entries.len() == 0 {
        empty = Some(
            Row {
                title: "No builds kept yet".to_owned(),
                subtitle: "Cordial keeps a build here once it knows which version it is, which happens the next time Roblox launches or updates.".to_owned(),
            },
        );
    } else {
        let mut text = "Cordial keeps the newest ".to_owned();
        push_decimal(&mut text, state.keep);
        text.append(
            " and any build a profile is pinned to. Removing one does not touch APKs that came from Sober.",
        );
        note = Some(text);
    }
    let follow = follow_row(state);
    let builds = Builds { follow, lost_pin, rows, empty, note };
    Page { title, description: SERVER_MINIMUM, body: Body::Builds(builds) }
}

// ---- What follows a click ----

/// What a click asks for.
pub enum Change {
    /// A row was chosen as the profile's build.
    Choose,
    /// A row was chosen, and a launch asked for.
    ChooseAndLaunch,
    /// A build was to be removed.
    Remove,
}

/// What the page does once a change has been tried.
pub struct Aftermath {
    /// The page is built anew from the store.
    pub refresh: bool,
    /// The dialog closes and the game is launched.
    pub launch: bool,
    /// What is shown beneath the rows.
    pub status: Option<Row>,
}

/// How a change that failed is announced.
pub open spec fn failure_title(change: Change) -> Seq<char> {
    match change {
        Change::Choose | Change::ChooseAndLaunch => "The choice was not saved"@,
        Change::Remove => "The build was not removed"@,
    }
}

/// What follows a change that was made, or that failed with an error. A launch follows
/// only a choice that was saved.
pub fn after_change(change: Change, tried: Result<(), String>) -> (aftermath: Aftermath)
    ensures
        aftermath.refresh == tried is Ok,
        aftermath.launch == (tried is Ok && change is ChooseAndLaunch),
        match (aftermath.status, tried) {
            (None, Ok(_)) => true,
            (Some(row), Err(error)) => says(row, failure_title(change), error@),
            _ => false,
        },
{
    match tried {
        Ok(_) => Aftermath {
            refresh: true,
            launch: matches!(change, Change::ChooseAndLaunch),
            status: None,
        },
        Err(error) => {
            let title = match change {
                Change::Choose | Change::ChooseAndLaunch => "The choice was not saved",
                Change::Remove => "The build was not removed",
            };
            let row = Row { title: title.to_owned(), subtitle: error };
            Aftermath { refresh: false, launch: false, status: Some(row) }
        },
    }
}

// ---- Laws ----

/// How many rows have the tick. The row of a pin that was lost always has it.
pub open spec fn ticks(builds: Builds) -> nat {
    let follow: nat = if builds.follow.active {
        1
    } else {
        0
    };
    let lost: nat = if builds.lost_pin is Some {
        1
    } else {
        0
    };
    follow + lost + builds.rows@.filter(|row: BuildRow| row.active).len()
}

/// At most one kept build is of version `version`.
pub open spec fn keeps_once(entries: Seq<Entry>, version: Seq<char>) -> bool {
    forall|i: int, j: int|
        0 <= i < entries.len() && 0 <= j < entries.len() && (#[trigger] entries[i]).version@
            == version && (#[trigger] entries[j]).version@ == version ==> i == j
}

/// Rows of which at most the one at `k` is active: how many are.
proof fn active_rows(rows: Seq<BuildRow>, k: int)
    requires
        forall|i: int| 0 <= i < rows.len() && (#[trigger] rows[i]).active ==> i == k,
    ensures
        rows.filter(|row: BuildRow| row.active).len() == (if 0 <= k < rows.len()
            && rows[k].active {
            1nat
        } else {
            0nat
        }),
    decreases rows.len(),
{
    reveal(Seq::filter);
    if rows.len() > 0 {
        let fewer = rows.drop_last();
        assert forall|i: int| 0 <= i < fewer.len() && (#[trigger] fewer[i]).active implies i
            == k by {
            assert(rows[i].active);
        }
        active_rows(fewer, k);
        assert(0 <= k < fewer.len() ==> fewer[k] == rows[k]);
        assert(rows.last() == rows[rows.len() - 1]);
    }
}

/// Exactly one row has the tick: what the profile launches is always shown, and shown
/// once, provided that the store keeps the pinned version once at most.
pub proof fn one_row_has_the_tick(builds: Builds, state: State)
    requires
        shows_builds(builds, state),
        state.pinned matches Some(pin) ==> keeps_once(state.entries@, pin@),
    ensures
        ticks(builds) == 1,
{
    let rows = builds.rows@;
    match state.pinned {
        Some(pin) => {
            if keeps(state.entries@, pin@) {
                let k = choose|k: int|
                    0 <= k < state.entries@.len() && (#[trigger] state.entries@[k]).version@
                        == pin@;
                assert(shows_build(rows[k], state.entries@[k], state));
                assert forall|i: int| 0 <= i < rows.len() && (#[trigger] rows[i]).active implies i
                    == k by {
                    assert(shows_build(rows[i], state.entries@[i], state));
                }
                active_rows(rows, k);
            } else {
                assert forall|i: int| 0 <= i < rows.len() && (#[trigger] rows[i]).active implies i
                    == -1 by {
                    assert(shows_build(rows[i], state.entries@[i], state));
                }
                active_rows(rows, -1);
            }
        },
        None => {
            assert forall|i: int| 0 <= i < rows.len() && (#[trigger] rows[i]).active implies i
                == -1 by {
                assert(shows_build(rows[i], state.entries@[i], state));
            }
            active_rows(rows, -1);
        },
    }
}

/// Removal is withheld from the current build and from a build that a profile is pinned
/// to, and from no other.
pub proof fn removal_is_withheld_from_the_current_and_the_pinned_only(
    version: Seq<char>,
    current: Option<Seq<char>>,
    pinned_anywhere: Seq<Seq<char>>,
)
    ensures
        removal_reason(version, current, pinned_anywhere) is Some <==> current == Some(version)
            || pinned_anywhere.contains(version),
{
}

/// A profile whose pin was lost is offered no row that keeps it as it is: no build row is
/// active, nor is the row that follows the current build.
pub proof fn a_lost_pin_stands_alone(builds: Builds, state: State, i: int)
    requires
        shows_builds(builds, state),
        builds.lost_pin is Some,
        0 <= i < builds.rows@.len(),
    ensures
        !builds.follow.active,
        !builds.rows@[i].active,
{
    assert(shows_build(builds.rows@[i], state.entries@[i], state));
}

// ---- What is said of a build ----

/// Of a complete build that is not the current one is said who loaded it and how large it
/// is: that this Cordial loaded it exactly if it did, that another one did, by its version,
/// exactly if that is on record, and that none did yet if none is.
pub proof fn a_build_says_who_loaded_it(
    entry: Entry,
    current: Option<Seq<char>>,
    this_cordial: Seq<char>,
)
    requires
        entry.complete,
        current != Some(entry.version@),
    ensures
        entry.loaded_by is None ==> description(entry, current, this_cordial)
            == "Not loaded by Cordial yet"@ + " · "@ + entry.size@,
        entry.loaded_by matches Some(v) ==> v@ == this_cordial ==> description(
            entry,
            current,
            this_cordial,
        ) == "Loaded by this Cordial"@ + " · "@ + entry.size@,
        entry.loaded_by matches Some(v) ==> v@ != this_cordial ==> description(
            entry,
            current,
            this_cordial,
        ) == "Last loaded by Cordial "@ + v@ + " · "@ + entry.size@,
{
    let parts = description_parts(entry, current, this_cordial);
    let loaded = loaded_text(entry.loaded_by.deep_view(), this_cordial);
    assert(parts =~= seq![loaded, entry.size@]);
    pieces_of_two(loaded, entry.size@);
}

/// Two pieces joined.
proof fn pieces_of_two(a: Seq<char>, b: Seq<char>)
    ensures
        joined(seq![a, b], " · "@) == a + " · "@ + b,
{
    let parts = seq![a, b];
    assert(parts.drop_last() =~= seq![a]);
    reveal_with_fuel(joined, 3);
}

/// That a build is the current one is said first, before all that is said of it otherwise.
pub proof fn the_current_build_says_so_first(
    entry: Entry,
    current: Option<Seq<char>>,
    this_cordial: Seq<char>,
)
    requires
        current != Some(entry.version@),
    ensures
        description(entry, Some(entry.version@), this_cordial) == "Current build"@ + " · "@
            + description(entry, current, this_cordial),
{
    let rest = description_parts(entry, current, this_cordial);
    let all = description_parts(entry, Some(entry.version@), this_cordial);
    assert(all =~= seq!["Current build"@] + rest);
    joining_goes_piece_by_piece(seq!["Current build"@], rest, "Current build"@, " · "@);
}

/// A build kept without its APK says so before its size, and otherwise what it would say if
/// it were complete: `said` is what both say.
pub proof fn an_incomplete_build_says_so_before_its_size(
    complete: Entry,
    incomplete: Entry,
    current: Option<Seq<char>>,
    this_cordial: Seq<char>,
) -> (said: Seq<char>)
    requires
        complete.complete,
        !incomplete.complete,
        complete.version@ == incomplete.version@,
        complete.loaded_by.deep_view() == incomplete.loaded_by.deep_view(),
        complete.size@ == incomplete.size@,
    ensures
        description(complete, current, this_cordial) == said + " · "@ + complete.size@,
        description(incomplete, current, this_cordial) == said + " · "@
            + "kept without its APK, so it cannot be chosen"@ + " · "@ + complete.size@,
{
    let kept = "kept without its APK, so it cannot be chosen"@;
    let parts = description_parts(complete, current, this_cordial);
    let longer = description_parts(incomplete, current, this_cordial);
    let front = parts.drop_last();
    assert(parts =~= front + seq![complete.size@]);
    assert(longer =~= front + seq![kept, complete.size@]);
    joining_goes_piece_by_piece(front, seq![complete.size@], complete.size@, " · "@);
    joining_goes_piece_by_piece(front, seq![kept, complete.size@], kept, " · "@);
    pieces_of_two(kept, complete.size@);
    let said = joined(front, " · "@);
    assert(said + " · "@ + (kept + " · "@ + complete.size@) =~= said + " · "@ + kept + " · "@
        + complete.size@);
    said
}

/// An active row says so before its detail, and any other row says its detail alone.
pub proof fn an_active_row_says_so_first(detail: Seq<char>)
    ensures
        subtitle_text(false, detail) == detail,
        subtitle_text(true, detail) == "Active — used on launch · "@ + detail,
{
}

/// A build that is kept from removal says why: being the current one comes first, and a pin
/// is named only where that is the reason.
pub proof fn what_keeps_a_build_from_removal(
    version: Seq<char>,
    current: Option<Seq<char>>,
    pinned_anywhere: Seq<Seq<char>>,
)
    ensures
        removal_reason(version, current, pinned_anywhere) == Some(
            "The current build cannot be removed"@,
        ) <==> current == Some(version),
        removal_reason(version, current, pinned_anywhere) == Some(
            "A profile is pinned to this build"@,
        ) <==> current != Some(version) && exists|i: int|
            0 <= i < pinned_anywhere.len() && #[trigger] pinned_anywhere[i] == version,
        removal_reason(version, current, pinned_anywhere) is None <==> current != Some(version)
            && forall|i: int|
            0 <= i < pinned_anywhere.len() ==> #[trigger] pinned_anywhere[i] != version,
{
    reveal_strlit("The current build cannot be removed");
    reveal_strlit("A profile is pinned to this build");
    assert("The current build cannot be removed"@.len()
        != "A profile is pinned to this build"@.len());
}

// ---- What the page shows ----

/// The page is about its profile, and shows builds exactly if the profile can hold a pin;
/// otherwise it shows why not.
pub proof fn the_page_shows_builds_if_a_pin_can_be_held(page: Page, state: State)
    requires
        shows(page, state),
    ensures
        page.title@ == "Roblox version for "@ + state.profile@,
        page.body is Builds <==> state.unusable is None,
        state.unusable matches Some(why) ==> page.body->NoPin_0.title@
            == "This profile cannot hold a pin"@ && page.body->NoPin_0.subtitle@ == why@,
        page.body matches Body::Builds(builds) ==> shows_builds(builds, state),
{
}

/// The page offers the builds that the store holds, each in its place, and nothing else.
/// Whatever the pin and the current build are, a build can be chosen exactly if it is
/// complete.
pub proof fn a_build_can_be_chosen_if_it_is_complete(builds: Builds, state: State, i: int)
    requires
        shows_builds(builds, state),
    ensures
        builds.rows@.len() == state.entries@.len(),
        0 <= i < state.entries@.len() ==> {
            let row = builds.rows@[i];
            let entry = state.entries@[i];
            &&& row.version@ == entry.version@
            &&& row.title@ == "Roblox "@ + entry.version@
            &&& row.choosable <==> entry.complete
        },
{
    if 0 <= i < state.entries@.len() {
        assert(shows_build(builds.rows@[i], state.entries@[i], state));
    }
}

/// Which builds can be chosen depends on the kept builds alone: two pages for the same ones
/// offer the same.
pub proof fn what_can_be_chosen_depends_on_the_store_alone(
    one: Builds,
    one_state: State,
    other: Builds,
    other_state: State,
    i: int,
)
    requires
        shows_builds(one, one_state),
        shows_builds(other, other_state),
        one_state.entries@.len() == other_state.entries@.len(),
        0 <= i < one_state.entries@.len(),
        one_state.entries@[i].complete == other_state.entries@[i].complete,
    ensures
        one.rows@[i].choosable == other.rows@[i].choosable,
        one_state.entries@[i].complete ==> one.rows@[i].choosable,
{
    a_build_can_be_chosen_if_it_is_complete(one, one_state, i);
    a_build_can_be_chosen_if_it_is_complete(other, other_state, i);
}

/// A row has the tick exactly if the profile is pinned to its build, and then says so before
/// what it says of the build.
pub proof fn the_pinned_build_has_the_tick(builds: Builds, state: State, i: int)
    requires
        shows_builds(builds, state),
        0 <= i < state.entries@.len(),
    ensures
        ({
            let row = builds.rows@[i];
            let said = description(
                state.entries@[i],
                match state.current {
                    Some(v) => Some(v@),
                    None => None,
                },
                state.this_cordial@,
            );
            &&& row.active <==> state.pinned is Some && state.pinned->0@
                == state.entries@[i].version@
            &&& row.active ==> row.subtitle@ == "Active — used on launch · "@ + said
            &&& !row.active ==> row.subtitle@ == said
        }),
{
    assert(shows_build(builds.rows@[i], state.entries@[i], state));
}

/// Any build but the current one and those that some profile is pinned to can be removed,
/// and no other.
pub proof fn a_build_that_is_not_in_use_can_be_removed(builds: Builds, state: State, i: int)
    requires
        shows_builds(builds, state),
        0 <= i < state.entries@.len(),
    ensures
        ({
            let version = state.entries@[i].version@;
            let current = state.current is Some && state.current->0@ == version;
            let pinned = exists|k: int|
                0 <= k < state.pinned_anywhere@.len() && (#[trigger] state.pinned_anywhere@[k])@
                    == version;
            match builds.rows@[i].removal_blocked {
                Some(why) => if current {
                    why@ == "The current build cannot be removed"@
                } else {
                    pinned && why@ == "A profile is pinned to this build"@
                },
                None => !current && !pinned,
            }
        }),
{
    let version = state.entries@[i].version@;
    let pins = texts(state.pinned_anywhere@);
    assert(shows_build(builds.rows@[i], state.entries@[i], state));
    what_keeps_a_build_from_removal(version, state.current.deep_view(), pins);
    assert forall|k: int| 0 <= k < pins.len() implies #[trigger] pins[k]
        == state.pinned_anywhere@[k]@ by {}
    if exists|k: int| 0 <= k < pins.len() && #[trigger] pins[k] == version {
        let k = choose|k: int| 0 <= k < pins.len() && #[trigger] pins[k] == version;
        assert(state.pinned_anywhere@[k]@ == version);
    }
    if exists|k: int|
        0 <= k < state.pinned_anywhere@.len() && (#[trigger] state.pinned_anywhere@[k])@
            == version {
        let k = choose|k: int|
            0 <= k < state.pinned_anywhere@.len() && (#[trigger] state.pinned_anywhere@[k])@
                == version;
        assert(pins[k] == version);
    }
}

/// The row that follows the current build has the tick exactly if the profile has no pin,
/// and names the current build if there is one.
pub proof fn without_a_pin_the_current_build_is_followed(builds: Builds, state: State)
    requires
        shows_builds(builds, state),
    ensures
        builds.follow.title@ == "Follow the current build"@,
        builds.follow.active <==> state.pinned is None,
        ({
            let said = match state.current {
                Some(v) => "Roblox "@ + v@ + " now, and newer builds as they are installed"@,
                None => "Whichever build Cordial has, and newer builds as they are installed"@,
            };
            builds.follow.subtitle@ == if state.pinned is None {
                "Active — used on launch · "@ + said
            } else {
                said
            }
        }),
{
}

/// A pin is shown as lost exactly if it is there and no kept build is of its version.
pub proof fn a_pin_is_lost_if_its_build_is_gone(builds: Builds, state: State)
    requires
        shows_builds(builds, state),
    ensures
        builds.lost_pin is Some <==> state.pinned is Some && forall|i: int|
            0 <= i < state.entries@.len() ==> (#[trigger] state.entries@[i]).version@
                != state.pinned->0@,
        builds.lost_pin matches Some(row) ==> row.title@ == "Roblox "@ + state.pinned->0@
            && row.subtitle@
            == "Pinned, but Cordial no longer has this build. This profile will not launch until you choose another."@,
{
}

/// What is said of an empty store is said of an empty store only, and how many builds are
/// kept is said of any other.
pub proof fn an_empty_store_is_said_to_be_empty(builds: Builds, state: State)
    requires
        shows_builds(builds, state),
    ensures
        builds.empty is Some <==> state.entries@.len() == 0,
        builds.note is Some <==> state.entries@.len() > 0,
        builds.empty matches Some(row) ==> row.title@ == "No builds kept yet"@ && row.subtitle@
            == "Cordial keeps a build here once it knows which version it is, which happens the next time Roblox launches or updates."@,
        builds.note matches Some(note) ==> note@ == "Cordial keeps the newest "@ + decimal(
            state.keep as nat,
        )
            + " and any build a profile is pinned to. Removing one does not touch APKs that came from Sober."@,
{
}

/// A change that failed is announced for what it was: a choice, with a launch or without, or
/// a removal.
pub proof fn a_failure_is_announced_for_what_it_was(change: Change)
    ensures
        failure_title(change) == if change is Remove {
            "The build was not removed"@
        } else {
            "The choice was not saved"@
        },
{
}

} // verus!
