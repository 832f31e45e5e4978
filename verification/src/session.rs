//! Project persistence: session metadata, save targets, autosave slots,
//! crash-recovery offers, and the recent-projects list.
//!
//! The project itself is the engine's; what the session asks of it is only
//! whether it equals its last-saved state.

use vstd::prelude::*;

use crate::paths;
use crate::paths::{file_stem_of, has_extension, join_path, replace_extension};
use crate::strings;
use crate::strings::same_text;

verus! {

/// The text inside an optional string.
pub open spec fn text_of(s: Option<String>) -> Option<Seq<char>> {
    match s {
        Some(s) => Some(s@),
        None => None,
    }
}

fn copy_of(s: &Option<String>) -> (out: Option<String>)
    ensures
        text_of(out) == text_of(*s),
{
    match s {
        Some(s) => Some(s.clone()),
        None => None,
    }
}

/// The name a project is shown under.
pub open spec fn shown_name(path: Option<Seq<char>>) -> Seq<char> {
    match path {
        Some(p) => match paths::file_stem(p) {
            Some(stem) => stem,
            None => "Untitled Project"@,
        },
        None => "Untitled Project"@,
    }
}

/// File stem of the project file, or "Untitled Project".
pub fn display_name(path: &Option<String>) -> (out: String)
    ensures
        out@ == shown_name(text_of(*path)),
{
    match path {
        Some(p) => match file_stem_of(p.as_str()) {
            Some(stem) => stem,
            None => "Untitled Project".to_owned(),
        },
        None => "Untitled Project".to_owned(),
    }
}

/// Project/session metadata mirrored by the top bar.
#[derive(Debug)]
pub struct ProjectMeta {
    pub path: Option<String>,
    /// File stem, or "Untitled Project".
    pub name: String,
    pub dirty: bool,
}

/// What the metadata of a session says.
pub open spec fn meta_says(meta: ProjectMeta, path: Option<Seq<char>>, dirty: bool) -> bool {
    &&& text_of(meta.path) == path
    &&& meta.name@ == shown_name(path)
    &&& meta.dirty == dirty
}

/// Autosave outcome for the UI indicator.
#[derive(Debug)]
pub struct AutosavePayload {
    /// Epoch ms of a successful write; `None` on failure.
    pub at_ms: Option<u64>,
    pub error: Option<String>,
}

/// A recoverable autosave offered to the user.
#[derive(Debug)]
pub struct RecoveryOffer {
    pub key: String,
    pub project_path: Option<String>,
    /// Display name (project file stem, or "Untitled Project").
    pub name: String,
    /// Autosave mtime, epoch ms.
    pub modified_ms: u64,
}

/// One recent-projects entry, existence-checked at read time.
#[derive(Debug)]
pub struct RecentEntry {
    pub path: String,
    pub name: String,
    pub exists: bool,
    pub opened_at_ms: u64,
}

/// What opening a project gives.
#[derive(Debug)]
pub struct LoadResult {
    pub meta: ProjectMeta,
    /// A newer autosave exists for this project: offer to restore it.
    pub recovery: Option<RecoveryOffer>,
}

/// What came of one autosave.
#[derive(Debug)]
pub enum AutosaveEvent {
    Written { at_ms: u64 },
    Failed { message: String },
}

/// The indicator's view of an autosave.
pub fn autosave_payload(event: AutosaveEvent) -> (out: AutosavePayload)
    ensures
        match event {
            AutosaveEvent::Written { at_ms } => out.at_ms == Some(at_ms) && out.error is None,
            AutosaveEvent::Failed { message } => out.at_ms is None && text_of(out.error) == Some(
                message@,
            ),
        },
{
    match event {
        AutosaveEvent::Written { at_ms } => AutosavePayload { at_ms: Some(at_ms), error: None },
        AutosaveEvent::Failed { message } => AutosavePayload { at_ms: None, error: Some(message) },
    }
}

/// An autosave slot found by a recovery scan.
#[derive(Debug)]
pub struct RecoveryCandidate {
    pub key: String,
    pub project_path: Option<String>,
    pub modified_ms: u64,
}

/// What the offer of a candidate says.
pub open spec fn offers(offer: RecoveryOffer, candidate: RecoveryCandidate) -> bool {
    &&& offer.key@ == candidate.key@
    &&& text_of(offer.project_path) == text_of(candidate.project_path)
    &&& offer.name@ == shown_name(text_of(candidate.project_path))
    &&& offer.modified_ms == candidate.modified_ms
}

/// The offer for one candidate.
pub fn offer_of(candidate: &RecoveryCandidate) -> (out: RecoveryOffer)
    ensures
        offers(out, *candidate),
{
    RecoveryOffer {
        key: candidate.key.clone(),
        project_path: copy_of(&candidate.project_path),
        name: display_name(&candidate.project_path),
        modified_ms: candidate.modified_ms,
    }
}

/// The offers of a recovery scan, in its order.
pub fn project_recovery_scan(candidates: &Vec<RecoveryCandidate>) -> (out: Vec<RecoveryOffer>)
    ensures
        out@.len() == candidates@.len(),
        forall|i: int| 0 <= i < out@.len() ==> offers(#[trigger] out@[i], candidates@[i]),
{
    let mut out: Vec<RecoveryOffer> = Vec::new();
    for i in 0..candidates.len()
        invariant
            out@.len() == i,
            forall|k: int| 0 <= k < i ==> offers(#[trigger] out@[k], candidates@[k]),
    {
        out.push(offer_of(&candidates[i]));
    }
    out
}

/// One line of the recents file, with whether its file is still there.
#[derive(Debug)]
pub struct RecentFile {
    pub path: String,
    pub exists: bool,
    pub opened_at_ms: u64,
}

/// What the entry of a recent file says.
pub open spec fn lists(entry: RecentEntry, file: RecentFile) -> bool {
    &&& entry.path@ == file.path@
    &&& entry.name@ == shown_name(Some(file.path@))
    &&& entry.exists == file.exists
    &&& entry.opened_at_ms == file.opened_at_ms
}

/// The recent-projects list, in the order it is kept (newest first).
pub fn project_recents(files: &Vec<RecentFile>) -> (out: Vec<RecentEntry>)
    ensures
        out@.len() == files@.len(),
        forall|i: int| 0 <= i < out@.len() ==> lists(#[trigger] out@[i], files@[i]),
{
    let mut out: Vec<RecentEntry> = Vec::new();
    for i in 0..files.len()
        invariant
            out@.len() == i,
            forall|k: int| 0 <= k < i ==> lists(#[trigger] out@[k], files@[k]),
    {
        let file = &files[i];
        let name = match file_stem_of(file.path.as_str()) {
            Some(stem) => stem,
            None => "Untitled Project".to_owned(),
        };
        out.push(
            RecentEntry {
                path: file.path.clone(),
                name,
                exists: file.exists,
                opened_at_ms: file.opened_at_ms,
            },
        );
    }
    out
}

/// What an autosave tick does.
#[derive(Clone, Copy, Debug, PartialEq, Eq, Structural)]
pub enum AutosaveTick {
    /// Nothing unsaved: the slot may go.
    Clean,
    /// Write the project to its slot.
    Write,
}

/// Decide an autosave tick: unsaved work is written.
pub fn autosave_tick(session: &Session, matches_saved: bool) -> (out: AutosaveTick)
    ensures
        out == (if session.dirty(matches_saved) {
            AutosaveTick::Write
        } else {
            AutosaveTick::Clean
        }),
{
    if session.is_dirty(matches_saved) {
        AutosaveTick::Write
    } else {
        AutosaveTick::Clean
    }
}

/// Where autosaves live under the state directory.
pub fn autosave_dir(state_root: &str) -> (out: String)
    ensures
        out@ == paths::joined(state_root@, "autosave"@),
{
    join_path(state_root, "autosave")
}

/// The file of an autosave slot.
pub fn autosave_file(dir: &str, key: &str) -> (out: String)
    ensures
        out@ == paths::joined(dir@, key@ + ".cutty"@),
{
    let mut name = key.to_owned();
    name.append(".cutty");
    join_path(dir, name.as_str())
}

/// What the rest of the application does around a session change.
#[derive(Debug)]
pub enum SessionAction {
    /// Cancel pending autosaves and delete this slot.
    DiscardSlot(String),
    /// Take the session's new path; the current project is its saved state.
    Adopt,
    /// Send the new project out to every mirror (this schedules an autosave).
    EmitSnapshot,
    /// Cancel the pending autosave.
    CancelAutosave,
    /// Put this file at the top of the recents.
    PushRecent(String),
    /// Send the session's metadata out.
    EmitMeta,
    /// Look for a newer autosave of the opened project.
    LookForRecovery,
}

/// Some step of a plan deletes an autosave slot.
pub open spec fn discards(plan: Seq<SessionAction>) -> bool {
    exists|i: int| 0 <= i < plan.len() && #[trigger] plan[i] is DiscardSlot
}

/// Some step of a plan deletes this slot.
pub open spec fn discards_slot(plan: Seq<SessionAction>, key: Seq<char>) -> bool {
    exists|i: int|
        0 <= i < plan.len() && (#[trigger] plan[i] matches SessionAction::DiscardSlot(k) && k@ == key)
}

/// Where the current project lives.
#[derive(Debug)]
pub struct Session {
    /// Path of the `.cutty` file; `None` until the first save.
    pub path: Option<String>,
    /// The project is a recovered one that equals what it is compared against:
    /// it counts as unsaved all the same.
    pub recovered: bool,
}

/// Where a save goes: to `asked` if given (Save As), else to the session's
/// path, with the project extension where the path has none.
pub open spec fn save_target(session: Option<Seq<char>>, asked: Option<Seq<char>>) -> Option<
    Seq<char>,
> {
    let base = match asked {
        Some(p) => Some(p),
        None => session,
    };
    match base {
        Some(p) => Some(
            if paths::extension(p) is None {
                paths::with_extension(p, "cutty"@)
            } else {
                p
            },
        ),
        None => None,
    }
}

impl Session {
    /// There is unsaved work. `matches_saved` says whether the current project
    /// equals its last-saved state, so "undo back to the save point" reads as
    /// clean again.
    pub open spec fn dirty(self, matches_saved: bool) -> bool {
        self.recovered || !matches_saved
    }

    /// A fresh session without a file.
    pub fn new() -> (out: Self)
        ensures
            out.path is None,
            !out.recovered,
    {
        Session { path: None, recovered: false }
    }

    /// Whether there is unsaved work.
    pub fn is_dirty(&self, matches_saved: bool) -> (out: bool)
        ensures
            out == self.dirty(matches_saved),
    {
        self.recovered || !matches_saved
    }

    /// Metadata of the session.
    pub fn meta(&self, matches_saved: bool) -> (out: ProjectMeta)
        ensures
            meta_says(out, text_of(self.path), self.dirty(matches_saved)),
    {
        ProjectMeta {
            path: copy_of(&self.path),
            name: display_name(&self.path),
            dirty: self.is_dirty(matches_saved),
        }
    }

    /// The file a save writes. Fails when there is neither an asked path nor
    /// one of the session: the Save As dialog comes first.
    pub fn target(&self, asked: &Option<String>) -> (out: Result<String, String>)
        ensures
            match save_target(text_of(self.path), text_of(*asked)) {
                Some(p) => out matches Ok(t) && t@ == p,
                None => out matches Err(e) && e@ == "this project has no file yet — use Save As"@,
            },
    {
        let base = match asked {
            Some(p) => p.as_str(),
            None => match &self.path {
                Some(p) => p.as_str(),
                None => {
                    return Err("this project has no file yet — use Save As".to_owned());
                },
            },
        };
        if has_extension(base) {
            Ok(base.to_owned())
        } else {
            Ok(replace_extension(base, "cutty"))
        }
    }

    /// The project was written to `target`. The saved work no longer needs
    /// crash protection: the slot of the identity it was saved *from* goes,
    /// and (for Save As) the target's slot. `recents` says whether there is a
    /// recents list to keep.
    pub fn saved(&mut self, target: String, old_key: &str, new_key: &str, recents: bool) -> (out:
        Vec<SessionAction>)
        ensures
            text_of(final(self).path) == Some(target@),
            !final(self).recovered,
            discards_slot(out@, old_key@),
            discards_slot(out@, new_key@),
            forall|i: int|
                0 <= i < out@.len() ==> (#[trigger] out@[i] matches SessionAction::DiscardSlot(k)
                    ==> k@ == old_key@ || k@ == new_key@),
            ({
                let d: int = if old_key@ == new_key@ {
                    1
                } else {
                    2
                };
                let r: int = if recents {
                    1
                } else {
                    0
                };
                &&& out@.len() == d + r + 2
                &&& out@[0] matches SessionAction::DiscardSlot(k) && k@ == old_key@
                &&& d == 2 ==> (out@[1] matches SessionAction::DiscardSlot(k) && k@ == new_key@)
                &&& out@[d] is Adopt
                &&& recents ==> (out@[d + 1] matches SessionAction::PushRecent(p) && p@ == target@)
                &&& out@[d + r + 1] is EmitMeta
            }),
    {
        let mut out: Vec<SessionAction> = Vec::new();
        out.push(SessionAction::DiscardSlot(old_key.to_owned()));
        if !same_text(old_key, new_key) {
            out.push(SessionAction::DiscardSlot(new_key.to_owned()));
        }
        out.push(SessionAction::Adopt);
        if recents {
            out.push(SessionAction::PushRecent(target.clone()));
        }
        out.push(SessionAction::EmitMeta);
        self.path = Some(target);
        self.recovered = false;
        proof {
            assert(out@[0] is DiscardSlot);
            if old_key@ != new_key@ {
                assert(out@[1] is DiscardSlot);
            }
        }
        out
    }

    /// The project at `target` was opened. Its session is clean, and the
    /// autosave that the snapshot schedules must not prune a recovery slot the
    /// user has not answered for yet.
    pub fn loaded(&mut self, target: String, recents: bool) -> (out: Vec<SessionAction>)
        ensures
            text_of(final(self).path) == Some(target@),
            !final(self).recovered,
            out@.len() == (if recents {
                5int
            } else {
                4int
            }),
            out@[0] is Adopt,
            out@[1] is EmitSnapshot,
            out@[2] is CancelAutosave,
            recents ==> (out@[3] matches SessionAction::PushRecent(p) && p@ == target@),
            out@.last() is LookForRecovery,
            !discards(out@),
    {
        let mut out: Vec<SessionAction> = Vec::new();
        out.push(SessionAction::Adopt);
        out.push(SessionAction::EmitSnapshot);
        out.push(SessionAction::CancelAutosave);
        if recents {
            out.push(SessionAction::PushRecent(target.clone()));
        }
        out.push(SessionAction::LookForRecovery);
        self.path = Some(target);
        self.recovered = false;
        out
    }

    /// A fresh untitled project replaces the current one.
    pub fn renewed(&mut self) -> (out: Vec<SessionAction>)
        ensures
            final(self).path is None,
            !final(self).recovered,
            out@.len() == 3,
            out@[0] is Adopt,
            out@[1] is EmitSnapshot,
            out@[2] is CancelAutosave,
            !discards(out@),
    {
        self.path = None;
        self.recovered = false;
        let mut out: Vec<SessionAction> = Vec::new();
        out.push(SessionAction::Adopt);
        out.push(SessionAction::EmitSnapshot);
        out.push(SessionAction::CancelAutosave);
        out
    }

    /// An autosave was restored: the recovered project is live and dirty,
    /// pointed at the original file when there was one. The slot stays until
    /// the next explicit save, against a second crash, and autosaving goes on.
    /// `matches_saved` says whether the recovered project equals its baseline
    /// ([`restore_baseline`]): it is dirty either way. Returns what to do, and
    /// the answer.
    pub fn restored(&mut self, project_path: Option<String>, matches_saved: bool) -> (out: (
        Vec<SessionAction>,
        ProjectMeta,
    ))
        ensures
            text_of(final(self).path) == text_of(project_path),
            final(self).recovered == matches_saved,
            final(self).dirty(matches_saved),
            out.0@.len() == 1,
            out.0@[0] is EmitSnapshot,
            !discards(out.0@),
            meta_says(out.1, text_of(project_path), true),
    {
        self.path = project_path;
        self.recovered = matches_saved;
        let mut plan: Vec<SessionAction> = Vec::new();
        plan.push(SessionAction::EmitSnapshot);
        let meta = self.meta(matches_saved);
        (plan, meta)
    }
}

/// The answer to opening a project.
pub fn load_result(session: &Session, matches_saved: bool, candidate: &Option<RecoveryCandidate>)
    -> (out: LoadResult)
    ensures
        meta_says(out.meta, text_of(session.path), session.dirty(matches_saved)),
        match *candidate {
            Some(c) => out.recovery matches Some(offer) && offers(offer, c),
            None => out.recovery is None,
        },
{
    LoadResult {
        meta: session.meta(matches_saved),
        recovery: match candidate {
            Some(c) => Some(offer_of(c)),
            None => None,
        },
    }
}

/// What a restored project is compared against to tell whether it is dirty.
#[derive(Clone, Copy, Debug, PartialEq, Eq, Structural)]
pub enum Baseline {
    /// The project file's content on disk.
    OnDisk,
    /// An untouched new project.
    Pristine,
}

/// The baseline of a restored session: the project file when it still loads,
/// else pristine.
pub fn restore_baseline(project_path: &Option<String>, loads: bool) -> (out: Baseline)
    ensures
        out == (if project_path is Some && loads {
            Baseline::OnDisk
        } else {
            Baseline::Pristine
        }),
{
    match project_path {
        Some(_) => if loads {
            Baseline::OnDisk
        } else {
            Baseline::Pristine
        },
        None => Baseline::Pristine,
    }
}

/// A saved project can be saved again without a dialog, and goes to the same
/// file: the target of a save is its own target.
pub proof fn law_saving_again_goes_to_the_same_file(
    session: Option<Seq<char>>,
    asked: Option<Seq<char>>,
)
    requires
        save_target(session, asked) is Some,
    ensures
        save_target(save_target(session, asked), None) == save_target(session, asked),
{
    reveal_strlit("cutty");
    let base = match asked {
        Some(p) => p,
        None => session->0,
    };
    if paths::extension(base) is None && paths::file_name(base) is Some {
        paths::law_extension_reads_back(base, "cutty"@);
    }
}

/// A saved project always carries an extension, unless its path names no file.
pub proof fn law_saved_file_has_an_extension(session: Option<Seq<char>>, asked: Option<Seq<char>>)
    requires
        save_target(session, asked) matches Some(p) ==> paths::file_name(p) is Some,
    ensures
        save_target(session, asked) matches Some(p) ==> paths::extension(p) is Some,
{
    reveal_strlit("cutty");
    if save_target(session, asked) is Some {
        let base = match asked {
            Some(p) => p,
            None => session->0,
        };
        if paths::extension(base) is None && paths::file_name(base) is Some {
            paths::law_extension_reads_back(base, "cutty"@);
        }
    }
}

/// A project is shown under the name of its file without the extension, and as
/// untitled while it has no file.
pub proof fn law_projects_are_shown_by_their_stem(
    front: Seq<char>,
    stem: Seq<char>,
    ext: Seq<char>,
)
    requires
        front.len() == 0 || front.last() == '/',
        stem.len() > 0,
        paths::plain(stem + seq!['.'] + ext),
        !ext.contains('.'),
    ensures
        shown_name(Some(front + (stem + seq!['.'] + ext))) == stem,
        shown_name(None) == "Untitled Project"@,
{
    paths::law_names_are_stem_and_extension(front, stem, ext, seq!['x']);
}

/// A save goes to the file that was asked for, and only without one to the
/// session's own; a name that has an extension is kept as it is.
pub proof fn law_saves_go_where_asked(
    session: Option<Seq<char>>,
    front: Seq<char>,
    stem: Seq<char>,
    ext: Seq<char>,
)
    requires
        front.len() == 0 || front.last() == '/',
        stem.len() > 0,
        paths::plain(stem + seq!['.'] + ext),
        !ext.contains('.'),
    ensures
        save_target(session, Some(front + (stem + seq!['.'] + ext))) == Some(
            front + (stem + seq!['.'] + ext),
        ),
        save_target(Some(front + (stem + seq!['.'] + ext)), None) == Some(
            front + (stem + seq!['.'] + ext),
        ),
        save_target(None, None) is None,
{
    paths::law_names_are_stem_and_extension(front, stem, ext, seq!['x']);
}

/// A name without an extension gets the project extension, asked for or the
/// session's own.
pub proof fn law_saves_add_the_extension(
    session: Option<Seq<char>>,
    front: Seq<char>,
    name: Seq<char>,
)
    requires
        front.len() == 0 || front.last() == '/',
        paths::plain(name),
        forall|k: int| 0 < k < name.len() ==> #[trigger] name[k] != '.',
    ensures
        save_target(session, Some(front + name)) == Some(front + name + ".cutty"@),
        save_target(Some(front + name), None) == Some(front + name + ".cutty"@),
{
    reveal_strlit("cutty");
    reveal_strlit(".cutty");
    paths::law_names_without_a_dot_are_all_stem(front, name, "cutty"@);
    assert(".cutty"@ =~= seq!['.'] + "cutty"@);
    assert(front + name + seq!['.'] + "cutty"@ =~= front + name + ".cutty"@);
}

/// What the window is told of a session, an offer and a recent file is each its
/// own: path, name and state of the one it stands for.
pub proof fn law_the_window_is_told(
    meta: ProjectMeta,
    path: Option<Seq<char>>,
    dirty: bool,
    offer: RecoveryOffer,
    candidate: RecoveryCandidate,
    entry: RecentEntry,
    file: RecentFile,
)
    requires
        meta_says(meta, path, dirty),
        offers(offer, candidate),
        lists(entry, file),
    ensures
        meta.dirty == dirty,
        path is None ==> meta.path is None && meta.name@ == "Untitled Project"@,
        path matches Some(p) ==> (meta.path matches Some(q) && q@ == p),
        path is Some && paths::file_stem(path->0) is Some ==> Some(meta.name@) == paths::file_stem(
            path->0,
        ),
        offer.key@ == candidate.key@,
        offer.modified_ms == candidate.modified_ms,
        offer.project_path is Some <==> candidate.project_path is Some,
        candidate.project_path matches Some(p) ==> offer.project_path->0@ == p@,
        candidate.project_path is None ==> offer.name@ == "Untitled Project"@,
        candidate.project_path is Some && paths::file_stem(candidate.project_path->0@) is Some
            ==> Some(offer.name@) == paths::file_stem(candidate.project_path->0@),
        entry.path@ == file.path@,
        entry.exists == file.exists,
        entry.opened_at_ms == file.opened_at_ms,
        paths::file_stem(file.path@) is Some ==> Some(entry.name@) == paths::file_stem(file.path@),
{
}

/// Work is unsaved when it differs from what was saved or was recovered.
pub proof fn law_unsaved_work(session: Session)
    ensures
        session.dirty(false),
        session.dirty(true) <==> session.recovered,
{
}

/// A plan deletes a slot as soon as one of its steps does, wherever that stands.
pub proof fn law_every_step_of_a_plan_counts(plan: Seq<SessionAction>, key: String, i: int)
    requires
        0 <= i < plan.len(),
    ensures
        plan[i] == SessionAction::DiscardSlot(key) ==> discards(plan) && discards_slot(plan, key@),
        discards_slot(plan, key@) ==> discards(plan),
        !discards(plan) ==> !(plan[i] is DiscardSlot),
        !discards(Seq::empty()),
{
    if discards_slot(plan, key@) {
        let j = choose|j: int|
            0 <= j < plan.len() && (#[trigger] plan[j] matches SessionAction::DiscardSlot(k) && k@
                == key@);
        assert(plan[j] is DiscardSlot);
    }
}

} // verus!
