use cordial::text::{ends_with_text, join, lists, push_decimal, same_text};
use cordial::versions::{
    after_change, build_version_page, describe, keeps_version, removal_blocked, subtitle, Body,
    Builds, Change, Entry, State, SERVER_MINIMUM,
};

fn entry(version: &str, loaded_by: Option<&str>, complete: bool) -> Entry {
    Entry {
        version: version.into(),
        loaded_by: loaded_by.map(Into::into),
        size: "118.7 MB".into(),
        complete,
    }
}

fn state(pinned: Option<&str>, entries: Vec<Entry>) -> State {
    State {
        profile: "main".into(),
        unusable: None,
        pinned: pinned.map(Into::into),
        current: Some("3.0".into()),
        entries,
        pinned_anywhere: pinned.into_iter().map(Into::into).collect(),
        this_cordial: "0.14.0".into(),
        keep: 3,
    }
}

fn builds(state: &State) -> Builds {
    match build_version_page(state).body {
        Body::Builds(builds) => builds,
        Body::NoPin(_) => panic!("the profile can hold a pin"),
    }
}

fn ticks(builds: &Builds) -> usize {
    builds.follow.active as usize
        + builds.lost_pin.is_some() as usize
        + builds.rows.iter().filter(|r| r.active).count()
}

#[test]
fn a_build_nothing_has_loaded_is_unknown_rather_than_broken() {
    let line = describe(&entry("2.738.0.1397", None, true), None, "0.14.0");
    assert_eq!(line, "Not loaded by Cordial yet · 118.7 MB");
}

#[test]
fn the_current_build_loaded_by_this_cordial_says_both() {
    let line = describe(
        &entry("2.738.0.1397", Some("0.14.0"), true),
        Some("2.738.0.1397"),
        "0.14.0",
    );
    assert_eq!(line, "Current build · Loaded by this Cordial · 118.7 MB");
}

#[test]
fn an_engine_without_its_apk_says_why_it_cannot_be_chosen() {
    let line = describe(&entry("2.734.0.917", Some("0.13.0"), false), None, "0.14.0");
    assert!(line.contains("Last loaded by Cordial 0.13.0"), "{line}");
    assert!(line.contains("cannot be chosen"), "{line}");
    assert_eq!(
        line,
        "Last loaded by Cordial 0.13.0 · kept without its APK, so it cannot be chosen · 118.7 MB"
    );
}

#[test]
fn remove_is_withheld_from_the_current_build_and_a_pinned_one_only() {
    let pins = vec!["2.0".to_string()];
    assert!(removal_blocked("3.0", Some("3.0"), &pins).is_some());
    assert!(removal_blocked("2.0", Some("3.0"), &pins).is_some());
    assert_eq!(removal_blocked("1.0", Some("3.0"), &pins), None);
    assert_eq!(
        removal_blocked("2.0", Some("2.0"), &pins),
        Some("The current build cannot be removed")
    );
    assert_eq!(
        removal_blocked("2.0", None, &pins),
        Some("A profile is pinned to this build")
    );
}

#[test]
fn the_active_row_leads_with_being_active() {
    assert_eq!(subtitle(true, "118.7 MB"), "Active — used on launch · 118.7 MB");
    assert_eq!(subtitle(false, "118.7 MB"), "118.7 MB");
}

#[test]
fn a_profile_that_cannot_hold_a_pin_is_told_why() {
    let mut unusable = state(None, vec![entry("3.0", None, true)]);
    unusable.unusable = Some("no home directory".into());
    let page = build_version_page(&unusable);
    assert_eq!(page.title, "Roblox version for main");
    assert_eq!(page.description, SERVER_MINIMUM);
    match page.body {
        Body::NoPin(row) => {
            assert_eq!(row.title, "This profile cannot hold a pin");
            assert_eq!(row.subtitle, "no home directory");
        }
        Body::Builds(_) => panic!("no rows without a place for the pin"),
    }
}

#[test]
fn without_a_pin_the_current_build_is_followed() {
    let shown = builds(&state(
        None,
        vec![entry("3.0", Some("0.14.0"), true), entry("2.0", None, false)],
    ));
    assert_eq!(shown.follow.title, "Follow the current build");
    assert!(shown.follow.active);
    assert_eq!(
        shown.follow.subtitle,
        "Active — used on launch · Roblox 3.0 now, and newer builds as they are installed"
    );
    assert!(shown.lost_pin.is_none());
    assert_eq!(ticks(&shown), 1);

    let rows = &shown.rows;
    assert_eq!(rows.len(), 2);
    assert_eq!(rows[0].version, "3.0");
    assert_eq!(rows[0].title, "Roblox 3.0");
    assert_eq!(rows[0].subtitle, "Current build · Loaded by this Cordial · 118.7 MB");
    assert!(rows[0].choosable);
    assert_eq!(
        rows[0].removal_blocked,
        Some("The current build cannot be removed")
    );
    assert_eq!(rows[1].title, "Roblox 2.0");
    assert!(!rows[1].choosable);
    assert_eq!(rows[1].removal_blocked, None);

    assert!(shown.empty.is_none());
    assert_eq!(
        shown.note.unwrap(),
        "Cordial keeps the newest 3 and any build a profile is pinned to. \
         Removing one does not touch APKs that came from Sober."
    );
}

#[test]
fn a_pinned_build_has_the_tick() {
    let shown = builds(&state(
        Some("2.0"),
        vec![entry("3.0", None, true), entry("2.0", None, true)],
    ));
    assert!(!shown.follow.active);
    assert_eq!(
        shown.follow.subtitle,
        "Roblox 3.0 now, and newer builds as they are installed"
    );
    assert!(!shown.rows[0].active);
    assert!(shown.rows[1].active);
    assert_eq!(
        shown.rows[1].subtitle,
        "Active — used on launch · Not loaded by Cordial yet · 118.7 MB"
    );
    assert_eq!(
        shown.rows[1].removal_blocked,
        Some("A profile is pinned to this build")
    );
    assert!(shown.lost_pin.is_none());
    assert_eq!(ticks(&shown), 1);
}

#[test]
fn a_pin_that_was_lost_is_shown_and_nothing_else_is_active() {
    let shown = builds(&state(Some("1.0"), vec![entry("3.0", None, true)]));
    let lost = shown.lost_pin.as_ref().unwrap();
    assert_eq!(lost.title, "Roblox 1.0");
    assert_eq!(
        lost.subtitle,
        "Pinned, but Cordial no longer has this build. This profile will not launch until you choose another."
    );
    assert!(!shown.follow.active);
    assert!(!shown.rows[0].active);
    assert_eq!(ticks(&shown), 1);
}

#[test]
fn an_empty_store_says_so() {
    let mut nothing = state(None, vec![]);
    nothing.current = None;
    let shown = builds(&nothing);
    assert!(shown.rows.is_empty());
    assert_eq!(
        shown.follow.subtitle,
        "Active — used on launch · Whichever build Cordial has, and newer builds as they are installed"
    );
    let empty = shown.empty.unwrap();
    assert_eq!(empty.title, "No builds kept yet");
    assert_eq!(
        empty.subtitle,
        "Cordial keeps a build here once it knows which version it is, which happens the next time Roblox launches or updates."
    );
    assert!(shown.note.is_none());
}

#[test]
fn a_change_that_was_made_rebuilds_the_page() {
    let chosen = after_change(Change::Choose, Ok(()));
    assert!(chosen.refresh && !chosen.launch && chosen.status.is_none());
    let played = after_change(Change::ChooseAndLaunch, Ok(()));
    assert!(played.refresh && played.launch && played.status.is_none());
    let removed = after_change(Change::Remove, Ok(()));
    assert!(removed.refresh && !removed.launch && removed.status.is_none());
}

#[test]
fn a_change_that_failed_is_announced_and_launches_nothing() {
    for (change, title) in [
        (Change::Choose, "The choice was not saved"),
        (Change::ChooseAndLaunch, "The choice was not saved"),
        (Change::Remove, "The build was not removed"),
    ] {
        let failed = after_change(change, Err("disk full".into()));
        assert!(!failed.refresh && !failed.launch);
        let row = failed.status.unwrap();
        assert_eq!((row.title.as_str(), row.subtitle.as_str()), (title, "disk full"));
    }
}

#[test]
fn a_kept_version_is_found() {
    let entries = [entry("3.0", None, true), entry("2.0", None, false)];
    assert!(keeps_version(&entries, "2.0"));
    assert!(!keeps_version(&entries, "2"));
    assert!(!keeps_version(&[], "2.0"));
}

#[test]
fn text_is_put_together_and_taken_apart() {
    let mut out = "n = ".to_owned();
    push_decimal(&mut out, 0);
    push_decimal(&mut out, u64::MAX);
    assert_eq!(out, "n = 018446744073709551615");

    let parts: Vec<String> = ["a", "", "b"].iter().map(|s| s.to_string()).collect();
    assert_eq!(join(&parts, " · "), "a ·  · b");
    assert_eq!(join(&parts[..1], ", "), "a");
    assert_eq!(join(&[], ", "), "");

    assert!(lists(&parts, ""));
    assert!(!lists(&parts, "ab"));
    assert!(same_text("é", "é") && !same_text("é", "e"));

    assert!(ends_with_text("liba.so", ".so"));
    assert!(!ends_with_text("liba.so.1", ".so"));
    assert!(ends_with_text("x", ""));
    assert!(!ends_with_text("so", ".so"));
}
