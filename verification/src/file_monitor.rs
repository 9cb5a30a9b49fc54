//! Freshness of the files of a loaded result: which of them have changed
//! on disk since they were scanned.

use vstd::prelude::*;
use crate::path_map::{str_lt, strictly_sorted, PathMap};
use crate::types::string_views;

verus! {

/// What was known of a file when it was scanned.
#[derive(Debug)]
pub struct MonitoredFileDetails {
    pub last_modified: String,
    pub size: u64,
}

/// The files that are watched, and the profile they belong to.
pub struct MonitorState {
    pub current_profile_id: Option<i32>,
    pub monitored_files: PathMap<MonitoredFileDetails>,
}

impl Default for MonitorState {
    fn default() -> (state: Self)
        ensures
            state.current_profile_id is None,
            state.monitored_files.wf(),
            state.monitored_files@ == Map::<Seq<char>, MonitoredFileDetails>::empty(),
    {
        MonitorState { current_profile_id: None, monitored_files: PathMap::new() }
    }
}

impl MonitorState {
    /// Starts to watch the files of a profile, in place of what was watched
    /// before.
    pub fn start_monitoring(&mut self, profile_id: i32, files: PathMap<MonitoredFileDetails>)
        ensures
            final(self).current_profile_id == Some(profile_id),
            final(self).monitored_files == files,
    {
        self.current_profile_id = Some(profile_id);
        self.monitored_files = files;
    }

    /// Stops watching: no profile, no files.
    pub fn stop_monitoring(&mut self)
        ensures
            final(self).current_profile_id is None,
            final(self).monitored_files.wf(),
            final(self).monitored_files@ == Map::<Seq<char>, MonitoredFileDetails>::empty(),
    {
        self.current_profile_id = None;
        self.monitored_files = PathMap::new();
    }
}

/// What a look at the disk says of a watched path.
#[derive(Debug)]
pub enum Observation {
    /// Nothing is there.
    Missing,
    /// A directory is there.
    Directory,
    /// A file is there whose metadata cannot be read.
    Unreadable,
    /// A file is there, with this modification time and size.
    File { last_modified: String, size: u64 },
}

/// Whether a watched file is out of date: it is gone, or cannot be read,
/// or its modification time or its size has changed. A directory in its
/// place is passed over.
pub open spec fn out_of_date(stored: MonitoredFileDetails, observed: Observation) -> bool {
    match observed {
        Observation::Missing => true,
        Observation::Directory => false,
        Observation::Unreadable => true,
        Observation::File { last_modified, size } => last_modified@ != stored.last_modified@ || size
            != stored.size,
    }
}

/// Decides whether a watched file is out of date.
pub fn is_out_of_date(stored: &MonitoredFileDetails, observed: &Observation) -> (stale: bool)
    ensures
        stale == out_of_date(*stored, *observed),
{
    match observed {
        Observation::Missing => true,
        Observation::Directory => false,
        Observation::Unreadable => true,
        Observation::File { last_modified, size } => *last_modified != stored.last_modified
            || *size != stored.size,
    }
}

/// Whether a path is reported: a profile is watched, the path is among its
/// files, it was looked at, and what was seen is out of date.
pub open spec fn reported(
    state: MonitorState,
    observed: Map<Seq<char>, Observation>,
    path: Seq<char>,
) -> bool {
    &&& state.current_profile_id is Some
    &&& state.monitored_files@.contains_key(path)
    &&& observed.contains_key(path)
    &&& out_of_date(state.monitored_files@[path], observed[path])
}

/// The watched paths that are out of date, in ascending order. Without a
/// watched profile there are none.
pub fn check_file_freshness(state: &MonitorState, observed: &PathMap<Observation>) -> (stale: Vec<
    String,
>)
    requires
        state.monitored_files.wf(),
        observed.wf(),
    ensures
        strictly_sorted(string_views(stale@)),
        forall|p: Seq<char>| string_views(stale@).contains(p) <==> reported(*state, observed@, p),
{
    let mut stale: Vec<String> = Vec::new();
    if state.current_profile_id.is_none() {
        return stale;
    }
    let files = &state.monitored_files;
    let n = files.len();
    let ghost keys = files.keys();
    let ghost mut src: Seq<int> = Seq::empty();
    let mut i: usize = 0;
    while i < n
        invariant
            i <= n == keys.len(),
            keys == files.keys(),
            files == &state.monitored_files,
            files.wf(),
            observed.wf(),
            strictly_sorted(keys),
            state.current_profile_id is Some,
            forall|k: Seq<char>| files@.contains_key(k) <==> keys.contains(k),
            forall|j: int|
                0 <= j < keys.len() ==> files@.contains_key(#[trigger] keys[j]),
            src.len() == stale@.len(),
            forall|x: int|
                0 <= x < src.len() ==> 0 <= #[trigger] src[x] < i && keys[src[x]] == stale@[x]@
                    && reported(*state, observed@, keys[src[x]]),
            forall|x: int, y: int| 0 <= x < y < src.len() ==> src[x] < src[y],
            forall|j: int|
                0 <= j < i && reported(*state, observed@, #[trigger] keys[j]) ==> src.contains(j),
        decreases n - i,
    {
        let path = files.key_at(i);
        let details = files.value_at(i);
        let ghost prev = src;
        let mut listed = false;
        if let Some(seen) = observed.get(path.as_str()) {
            if is_out_of_date(details, seen) {
                stale.push(path.clone());
                listed = true;
                proof {
                    src = src.push(i as int);
                }
            }
        }
        proof {
            assert forall|j: int|
                0 <= j < i + 1 && reported(*state, observed@, #[trigger] keys[j]) implies src.contains(
                j,
            ) by {
                if j < i {
                    assert(prev.contains(j));
                    let x = prev.index_of(j);
                    assert(src[x] == j);
                } else {
                    assert(listed);
                    assert(src[src.len() - 1] == j);
                }
            }
        }
        i += 1;
    }
    proof {
        let names = string_views(stale@);
        assert forall|a: int, b: int| 0 <= a < b < names.len() implies str_lt(
            #[trigger] names[a],
            #[trigger] names[b],
        ) by {
            assert(names[a] == keys[src[a]]);
            assert(names[b] == keys[src[b]]);
            assert(src[a] < src[b]);
        }
        assert forall|p: Seq<char>| names.contains(p) <==> reported(*state, observed@, p) by {
            if names.contains(p) {
                let x = names.index_of(p);
                assert(names[x] == keys[src[x]]);
            }
            if reported(*state, observed@, p) {
                assert(keys.contains(p));
                let j = keys.index_of(p);
                assert(keys[j] == p);
                assert(src.contains(j));
                let x = src.index_of(j);
                assert(names[x] == p);
            }
        }
    }
    stale
}

} // verus!
