//! Decisions of the command-directory watcher: which file-system events
//! matter, and the debounce that turns a burst of them into one reload.

use vstd::prelude::*;
use crate::text::chars_of;

verus! {

// ── File extensions ──────────────────────────────────────────────────────────

/// The position of the last `c` in `s`.
pub open spec fn last_index_of(s: Seq<char>, c: char) -> Option<int>
    decreases s.len(),
{
    if s.len() == 0 {
        None
    } else if s.last() == c {
        Some(s.len() - 1)
    } else {
        last_index_of(s.drop_last(), c)
    }
}

/// The extension of a file name as `Path::extension` defines it: the text
/// after the final `.`; none without a `.`, or when the only `.` starts the name.
pub open spec fn file_extension(name: Seq<char>) -> Option<Seq<char>> {
    match last_index_of(name, '.') {
        None => None,
        Some(i) => if i == 0 {
            None
        } else {
            Some(name.skip(i + 1))
        },
    }
}

/// A file name with a `.yaml` or `.yml` extension.
pub open spec fn is_yaml_name(name: Seq<char>) -> bool {
    file_extension(name) == Some("yaml"@) || file_extension(name) == Some("yml"@)
}

proof fn lemma_last_index_of(s: Seq<char>, c: char, i: int)
    requires
        -1 <= i < s.len(),
        forall|j: int| i < j < s.len() ==> s[j] != c,
        i >= 0 ==> s[i] == c,
    ensures
        last_index_of(s, c) == (if i >= 0 { Some(i) } else { None::<int> }),
    decreases s.len(),
{
    if s.len() > 0 && s.len() - 1 != i {
        lemma_last_index_of(s.drop_last(), c, i);
    }
}

/// Whether the file name `name` has a `.yaml` or `.yml` extension.
pub fn is_yaml_file_name(name: &str) -> (b: bool)
    ensures
        b == is_yaml_name(name@),
{
    let cs = chars_of(name);
    let mut i: usize = cs.len();
    while i > 0 && cs[i - 1] != '.'
        invariant
            i <= cs.len(),
            cs@ == name@,
            forall|j: int| i <= j < cs@.len() ==> cs@[j] != '.',
        decreases i,
    {
        i = i - 1;
    }
    proof {
        lemma_last_index_of(name@, '.', i - 1);
    }
    if i <= 1 {
        return false;
    }
    let n = cs.len() - i;
    let ghost ext = name@.skip(i as int);
    proof {
        reveal_strlit("yaml");
        reveal_strlit("yml");
    }
    assert(ext.len() == n);
    if n == 4 {
        let r = cs[i] == 'y' && cs[i + 1] == 'a' && cs[i + 2] == 'm' && cs[i + 3] == 'l';
        assert(r ==> ext =~= "yaml"@);
        assert(ext != "yml"@);
        assert(!r ==> ext != "yaml"@) by {
            if !r {
                if ext == "yaml"@ {
                    assert(ext[0] == 'y' && ext[1] == 'a' && ext[2] == 'm' && ext[3] == 'l');
                }
            }
        }
        r
    } else if n == 3 {
        let r = cs[i] == 'y' && cs[i + 1] == 'm' && cs[i + 2] == 'l';
        assert(r ==> ext =~= "yml"@);
        assert(ext != "yaml"@);
        assert(!r ==> ext != "yml"@) by {
            if !r {
                if ext == "yml"@ {
                    assert(ext[0] == 'y' && ext[1] == 'm' && ext[2] == 'l');
                }
            }
        }
        r
    } else {
        assert(ext.len() != 4 && ext.len() != 3);
        false
    }
}

// ── Events ───────────────────────────────────────────────────────────────────

/// The kind of a file-system event.
#[derive(Clone, Copy, PartialEq, Eq, Debug)]
pub enum FsEventKind {
    Create,
    Modify,
    Remove,
    /// Access and any other kind.
    Other,
}

/// A path whose final component is a `.yaml` or `.yml` file name.
pub open spec fn names_yaml_file(name: Option<Seq<char>>) -> bool {
    match name {
        Some(n) => is_yaml_name(n),
        None => false,
    }
}

/// Whether an event should trigger a reload:
/// - a creation or modification, only when a `.yaml` or `.yml` file is affected;
/// - any removal that names a path (some platforms report a deletion with
///   the parent directory's path, so the extension is not checked);
/// - nothing else.
/// `file_names` holds the final component of each path the event names
/// (`None` when a path has none).
pub open spec fn is_relevant_event(kind: FsEventKind, file_names: Seq<Option<Seq<char>>>) -> bool {
    match kind {
        FsEventKind::Create | FsEventKind::Modify => exists|i: int|
            0 <= i < file_names.len() && names_yaml_file(#[trigger] file_names[i]),
        FsEventKind::Remove => file_names.len() > 0,
        FsEventKind::Other => false,
    }
}

/// The views of optional file names.
pub open spec fn names_view(v: Seq<Option<String>>) -> Seq<Option<Seq<char>>> {
    v.map_values(|o: Option<String>| match o {
        Some(s) => Some(s@),
        None => None,
    })
}

/// Whether an event should trigger a reload (see [`is_relevant_event`]).
pub fn is_yaml_event(kind: FsEventKind, file_names: &Vec<Option<String>>) -> (b: bool)
    ensures
        b == is_relevant_event(kind, names_view(file_names@)),
{
    let ghost nv = names_view(file_names@);
    match kind {
        FsEventKind::Create | FsEventKind::Modify => {
            let mut i: usize = 0;
            while i < file_names.len()
                invariant
                    i <= file_names@.len(),
                    nv == names_view(file_names@),
                    kind == FsEventKind::Create || kind == FsEventKind::Modify,
                    forall|j: int| 0 <= j < i ==> !names_yaml_file(#[trigger] nv[j]),
                decreases file_names.len() - i,
            {
                match &file_names[i] {
                    Some(n) => {
                        if is_yaml_file_name(n.as_str()) {
                            assert(nv[i as int] == Some(n@));
                            assert(names_yaml_file(nv[i as int]));
                            assert(is_relevant_event(kind, nv));
                            return true;
                        }
                        assert(nv[i as int] == Some(n@));
                    },
                    None => {
                        assert(nv[i as int] is None);
                    },
                }
                i = i + 1;
            }
            false
        },
        FsEventKind::Remove => file_names.len() > 0,
        FsEventKind::Other => false,
    }
}

// ── Debounce ─────────────────────────────────────────────────────────────────

/// Where the watcher loop stands.
#[derive(Clone, Copy, PartialEq, Eq, Debug, Structural)]
pub enum WatchState {
    /// Blocked until the next event.
    Waiting,
    /// A relevant event arrived; further events are absorbed until the
    /// debounce window passes with none.
    Settling,
    /// The event channel closed; the loop has ended.
    Stopped,
}

/// What the watcher loop learned from waiting.
#[derive(Clone, Copy, PartialEq, Eq, Debug, Structural)]
pub enum WatchEvent {
    /// An event arrived; whether it is relevant (see [`is_yaml_event`]).
    Changed(bool),
    /// The debounce window passed with no event.
    Quiet,
    /// The event channel closed.
    Closed,
}

/// What the watcher loop does next.
#[derive(Clone, Copy, PartialEq, Eq, Debug, Structural)]
pub enum WatchAction {
    Nothing,
    /// Reload the commands and announce them.
    Reload,
    /// Leave the loop.
    Stop,
}

/// One step of the watcher loop.
pub open spec fn watch_transition(state: WatchState, event: WatchEvent) -> (WatchState, WatchAction) {
    match (state, event) {
        (WatchState::Stopped, _) => (WatchState::Stopped, WatchAction::Stop),
        (_, WatchEvent::Closed) => (WatchState::Stopped, WatchAction::Stop),
        (WatchState::Waiting, WatchEvent::Changed(true)) => (WatchState::Settling, WatchAction::Nothing),
        (WatchState::Waiting, _) => (WatchState::Waiting, WatchAction::Nothing),
        (WatchState::Settling, WatchEvent::Changed(_)) => (WatchState::Settling, WatchAction::Nothing),
        (WatchState::Settling, WatchEvent::Quiet) => (WatchState::Waiting, WatchAction::Reload),
    }
}

/// One step of the watcher loop: from `state`, after `event`, the next
/// state and what to do. While waiting, irrelevant events are ignored and a
/// relevant one starts the debounce; while settling, events are absorbed and
/// a quiet window triggers one reload; a closed channel stops the loop
/// (without reloading).
pub fn watch_step(state: WatchState, event: WatchEvent) -> (r: (WatchState, WatchAction))
    ensures
        r == watch_transition(state, event),
{
    match (state, event) {
        (WatchState::Stopped, _) => (WatchState::Stopped, WatchAction::Stop),
        (_, WatchEvent::Closed) => (WatchState::Stopped, WatchAction::Stop),
        (WatchState::Waiting, WatchEvent::Changed(true)) => (WatchState::Settling, WatchAction::Nothing),
        (WatchState::Waiting, _) => (WatchState::Waiting, WatchAction::Nothing),
        (WatchState::Settling, WatchEvent::Changed(_)) => (WatchState::Settling, WatchAction::Nothing),
        (WatchState::Settling, WatchEvent::Quiet) => (WatchState::Waiting, WatchAction::Reload),
    }
}

/// The state after a run of events, and how many reloads it triggered.
pub open spec fn watch_run(state: WatchState, events: Seq<WatchEvent>) -> (WatchState, nat)
    decreases events.len(),
{
    if events.len() == 0 {
        (state, 0)
    } else {
        let prev = watch_run(state, events.drop_last());
        let step = watch_transition(prev.0, events.last());
        (step.0, prev.1 + if step.1 == WatchAction::Reload { 1nat } else { 0nat })
    }
}

/// A burst of changes settles into exactly one reload: from waiting, a
/// relevant change followed by any further changes and then a quiet window
/// reloads once and returns to waiting.
pub proof fn burst_reloads_once(more: Seq<bool>)
    ensures
        watch_run(
            WatchState::Waiting,
            seq![WatchEvent::Changed(true)] + more.map_values(|b: bool| WatchEvent::Changed(b)) + seq![
                WatchEvent::Quiet,
            ],
        ) == (WatchState::Waiting, 1nat),
    decreases more.len(),
{
    lemma_settling_absorbs(more);
    let pre = seq![WatchEvent::Changed(true)] + more.map_values(|b: bool| WatchEvent::Changed(b));
    let all = pre + seq![WatchEvent::Quiet];
    assert(all.drop_last() =~= pre);
}

proof fn lemma_settling_absorbs(more: Seq<bool>)
    ensures
        watch_run(
            WatchState::Waiting,
            seq![WatchEvent::Changed(true)] + more.map_values(|b: bool| WatchEvent::Changed(b)),
        ) == (WatchState::Settling, 0nat),
    decreases more.len(),
{
    let s = seq![WatchEvent::Changed(true)] + more.map_values(|b: bool| WatchEvent::Changed(b));
    if more.len() == 0 {
        assert(s =~= seq![WatchEvent::Changed(true)]);
        assert(s.drop_last() =~= Seq::<WatchEvent>::empty());
        assert(watch_run(WatchState::Waiting, s.drop_last()) == (WatchState::Waiting, 0nat));
    } else {
        assert(s.last() == WatchEvent::Changed(more.last()));
        lemma_settling_absorbs(more.drop_last());
        assert(s.drop_last() =~= seq![WatchEvent::Changed(true)] + more.drop_last().map_values(
            |b: bool| WatchEvent::Changed(b),
        ));
    }
}

/// Irrelevant events never reload: from waiting, any run of irrelevant
/// changes and quiet windows leaves the watcher waiting with no reload.
pub proof fn irrelevant_events_never_reload(events: Seq<WatchEvent>)
    requires
        forall|i: int|
            0 <= i < events.len() ==> #[trigger] events[i] == WatchEvent::Changed(false) || events[i]
                == WatchEvent::Quiet,
    ensures
        watch_run(WatchState::Waiting, events) == (WatchState::Waiting, 0nat),
    decreases events.len(),
{
    if events.len() > 0 {
        irrelevant_events_never_reload(events.drop_last());
        assert(events.last() == events[events.len() - 1]);
    }
}

/// Creations and modifications are judged alike: for any named paths, a
/// modification is relevant exactly when a creation would be.
pub proof fn modify_is_judged_like_create(file_names: Seq<Option<Seq<char>>>)
    ensures
        is_relevant_event(FsEventKind::Modify, file_names) == is_relevant_event(
            FsEventKind::Create,
            file_names,
        ),
{
}

/// A change to a file named `<stem>.yaml` or `<stem>.yml`, with a non-empty
/// stem, is relevant, whether the file was created or modified, and
/// wherever it stands among the named paths.
pub proof fn yaml_and_yml_changes_are_relevant(
    file_names: Seq<Option<Seq<char>>>,
    i: int,
    stem: Seq<char>,
    yml: bool,
)
    requires
        0 <= i < file_names.len(),
        stem.len() > 0,
        file_names[i] == Some(stem + (if yml { ".yml"@ } else { ".yaml"@ })),
    ensures
        is_relevant_event(FsEventKind::Create, file_names),
        is_relevant_event(FsEventKind::Modify, file_names),
{
    reveal_strlit(".yml");
    reveal_strlit(".yaml");
    reveal_strlit("yml");
    reveal_strlit("yaml");
    let ext = if yml { "yml"@ } else { "yaml"@ };
    let name = stem + (if yml { ".yml"@ } else { ".yaml"@ });
    assert(name =~= stem + seq!['.'] + ext);
    let dot = stem.len() as int;
    assert(name[dot] == '.');
    assert forall|j: int| dot < j < name.len() implies name[j] != '.' by {
        assert(name[j] == ext[j - dot - 1]);
    }
    lemma_last_index_of(name, '.', dot);
    assert(name.skip(dot + 1) =~= ext);
    assert(is_yaml_name(name));
    assert(names_yaml_file(file_names[i]));
}

} // verus!
