//! Sessions, autosave, and what the window sends and gets.

use cutty::double::Real;
use cutty::ipc::{bench_config, check_attached, frame_message, TrimEdge, TrimEdgeArg};
use cutty::session::{
    autosave_dir, autosave_file, autosave_payload, autosave_tick, display_name, load_result,
    offer_of, project_recents, project_recovery_scan, restore_baseline, AutosaveEvent,
    AutosaveTick, Baseline, RecentFile, RecoveryCandidate, Session, SessionAction,
};

fn some(s: &str) -> Option<String> {
    Some(s.to_string())
}

#[test]
fn names_come_from_the_file_stem() {
    assert_eq!(display_name(&None), "Untitled Project");
    assert_eq!(display_name(&some("/p/My Film.cutty")), "My Film");
    assert_eq!(display_name(&some("/p/a.b.cutty")), "a.b");
    assert_eq!(display_name(&some("/")), "Untitled Project");
}

#[test]
fn meta_mirrors_the_session() {
    let mut s = Session::new();
    let meta = s.meta(true);
    assert_eq!((meta.path, meta.name.as_str(), meta.dirty), (None, "Untitled Project", false));
    s.loaded("/p/x.cutty".to_string(), true);
    let meta = s.meta(false);
    assert_eq!(meta.path, some("/p/x.cutty"));
    assert_eq!(meta.name, "x");
    assert!(meta.dirty);
}

#[test]
fn saves_need_a_target() {
    let mut s = Session::new();
    assert_eq!(
        s.target(&None).unwrap_err(),
        "this project has no file yet — use Save As"
    );
    assert_eq!(s.target(&some("/p/film")).unwrap(), "/p/film.cutty");
    assert_eq!(s.target(&some("/p/film.bak")).unwrap(), "/p/film.bak");
    s.loaded("/p/old.cutty".to_string(), false);
    assert_eq!(s.target(&None).unwrap(), "/p/old.cutty");
    assert_eq!(s.target(&some("/q/new")).unwrap(), "/q/new.cutty");
}

fn shape(plan: &[SessionAction]) -> Vec<String> {
    plan.iter()
        .map(|a| match a {
            SessionAction::DiscardSlot(k) => format!("discard {k}"),
            SessionAction::Adopt => "adopt".to_string(),
            SessionAction::EmitSnapshot => "snapshot".to_string(),
            SessionAction::CancelAutosave => "cancel".to_string(),
            SessionAction::PushRecent(p) => format!("recent {p}"),
            SessionAction::EmitMeta => "meta".to_string(),
            SessionAction::LookForRecovery => "recovery".to_string(),
        })
        .collect()
}

#[test]
fn saving_drops_both_identities_slots() {
    let mut s = Session::new();
    let plan = s.saved("/p/x.cutty".to_string(), "untitled", "x-key", true);
    assert_eq!(
        shape(&plan),
        vec!["discard untitled", "discard x-key", "adopt", "recent /p/x.cutty", "meta"]
    );
    assert_eq!(s.path, some("/p/x.cutty"));
    let plan = s.saved("/p/x.cutty".to_string(), "x-key", "x-key", false);
    assert_eq!(shape(&plan), vec!["discard x-key", "adopt", "meta"]);
}

#[test]
fn only_saving_discards_a_slot() {
    let mut s = Session::new();
    assert_eq!(
        shape(&s.loaded("/p/x.cutty".to_string(), true)),
        vec!["adopt", "snapshot", "cancel", "recent /p/x.cutty", "recovery"]
    );
    assert_eq!(
        shape(&s.loaded("/p/y.cutty".to_string(), false)),
        vec!["adopt", "snapshot", "cancel", "recovery"]
    );
    assert_eq!(shape(&s.renewed()), vec!["adopt", "snapshot", "cancel"]);
    assert_eq!(s.path, None);
    let (plan, meta) = s.restored(some("/p/z.cutty"), false);
    assert_eq!(shape(&plan), vec!["snapshot"]);
    assert_eq!(meta.name, "z");
    assert_eq!(s.path, some("/p/z.cutty"));
}

#[test]
fn saving_again_goes_to_the_same_file() {
    for asked in ["/p/film", "/p/film.x", "/", ".hidden", "/p/dir/", "a.b.c"] {
        let mut s = Session::new();
        let target = s.target(&some(asked)).unwrap();
        s.saved(target.clone(), "a", "b", false);
        assert_eq!(s.target(&None).unwrap(), target);
    }
}

fn candidate(path: Option<&str>) -> RecoveryCandidate {
    RecoveryCandidate {
        key: "k1".to_string(),
        project_path: path.map(str::to_string),
        modified_ms: 99,
    }
}

#[test]
fn recoveries_are_offered_in_order() {
    let offer = offer_of(&candidate(Some("/p/film.cutty")));
    assert_eq!((offer.key.as_str(), offer.name.as_str(), offer.modified_ms), ("k1", "film", 99));
    assert_eq!(offer.project_path, some("/p/film.cutty"));
    let offers = project_recovery_scan(&vec![candidate(None), candidate(Some("/b.cutty"))]);
    assert_eq!(offers.len(), 2);
    assert_eq!(offers[0].name, "Untitled Project");
    assert_eq!(offers[1].name, "b");

    let mut s = Session::new();
    s.loaded("/b.cutty".to_string(), false);
    let loaded = load_result(&s, true, &Some(candidate(Some("/b.cutty"))));
    assert_eq!(loaded.meta.name, "b");
    assert!(!loaded.meta.dirty);
    assert_eq!(loaded.recovery.unwrap().key, "k1");
    assert!(load_result(&s, true, &None).recovery.is_none());
}

#[test]
fn recents_keep_their_order() {
    let entries = project_recents(&vec![
        RecentFile {
            path: "/p/new.cutty".to_string(),
            exists: true,
            opened_at_ms: 20,
        },
        RecentFile {
            path: "/p/gone.cutty".to_string(),
            exists: false,
            opened_at_ms: 10,
        },
    ]);
    assert_eq!(entries.len(), 2);
    assert_eq!((entries[0].name.as_str(), entries[0].exists, entries[0].opened_at_ms), ("new", true, 20));
    assert_eq!((entries[1].path.as_str(), entries[1].exists), ("/p/gone.cutty", false));
}

#[test]
fn autosaves_write_only_what_is_unsaved() {
    let s = Session::new();
    assert_eq!(autosave_tick(&s, true), AutosaveTick::Clean);
    assert_eq!(autosave_tick(&s, false), AutosaveTick::Write);
    let ok = autosave_payload(AutosaveEvent::Written { at_ms: 5 });
    assert_eq!((ok.at_ms, ok.error), (Some(5), None));
    let bad = autosave_payload(AutosaveEvent::Failed {
        message: "disk full".to_string(),
    });
    assert_eq!((bad.at_ms, bad.error), (None, some("disk full")));
    assert_eq!(autosave_dir("/s/cutty"), "/s/cutty/autosave");
    assert_eq!(autosave_file("/s/cutty/autosave", "ab12"), "/s/cutty/autosave/ab12.cutty");
}

#[test]
fn a_restored_session_is_dirty() {
    for matches_saved in [false, true] {
        let mut s = Session::new();
        let (_, meta) = s.restored(None, matches_saved);
        assert!(meta.dirty);
        assert_eq!(meta.path, None);
        assert!(s.is_dirty(matches_saved));
        assert_eq!(autosave_tick(&s, matches_saved), AutosaveTick::Write);
        // Saving, loading and starting anew all end it.
        s.saved("/p/x.cutty".to_string(), "a", "b", false);
        assert!(!s.is_dirty(true));
        s.restored(some("/p/x.cutty"), matches_saved);
        s.loaded("/p/x.cutty".to_string(), false);
        assert!(!s.meta(true).dirty);
        s.restored(some("/p/x.cutty"), matches_saved);
        s.renewed();
        assert_eq!(autosave_tick(&s, true), AutosaveTick::Clean);
    }
    // A differing one still reads as clean once it equals its baseline.
    let mut s = Session::new();
    s.restored(None, false);
    assert!(!s.is_dirty(true));
}

#[test]
fn restored_projects_compare_against_disk_or_nothing() {
    assert_eq!(restore_baseline(&some("/p"), true), Baseline::OnDisk);
    assert_eq!(restore_baseline(&some("/p"), false), Baseline::Pristine);
    assert_eq!(restore_baseline(&None, true), Baseline::Pristine);
}

#[test]
fn frame_messages_carry_a_header() {
    let pts = Real {
        bits: 12.5f64.to_bits(),
    };
    let msg = frame_message(pts, 1280, 720, &vec![0xFF, 0xD8, 9]);
    let mut expected = Vec::new();
    expected.extend_from_slice(&12.5f64.to_le_bytes());
    expected.extend_from_slice(&1280u32.to_le_bytes());
    expected.extend_from_slice(&720u32.to_le_bytes());
    expected.extend_from_slice(&[0xFF, 0xD8, 9]);
    assert_eq!(msg, expected);
}

#[test]
fn bench_mode_needs_its_switch() {
    assert_eq!(bench_config(&None, &some("/a")), None);
    assert_eq!(bench_config(&some("0"), &some("/a")), None);
    assert_eq!(bench_config(&some("1"), &None), None);
    assert_eq!(
        bench_config(&some(" 1\n"), &some("/a::/b c:")),
        Some(vec!["/a".to_string(), "/b c".to_string()])
    );
    assert_eq!(bench_config(&some("1"), &some("")), Some(Vec::new()));
}

#[test]
fn transport_calls_need_a_player() {
    assert!(check_attached(true).is_ok());
    assert_eq!(check_attached(false).unwrap_err(), "playback engine is not attached");
}

#[test]
fn trim_edges_convert() {
    assert_eq!(TrimEdge::from(TrimEdgeArg::Start), TrimEdge::Start);
    assert_eq!(TrimEdge::from(TrimEdgeArg::End), TrimEdge::End);
}
