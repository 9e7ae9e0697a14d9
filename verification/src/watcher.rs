//! Watching a directory: which changes are passed on.

use globset::GlobSet;
use vstd::prelude::*;

use crate::ignore;
use crate::paths;
use crate::text;
use crate::types::{ChangeEvent, ChangeKind};

verus! {

/// How a directory is watched.
#[derive(Debug)]
pub struct FsWatcherConfig {
    /// The directory.
    pub root: String,
    /// How long changes are gathered, in milliseconds.
    pub debounce_ms: u64,
    /// Globs of what is passed over.
    pub ignore_patterns: Vec<String>,
}

/// What is passed over by default.
pub open spec fn default_patterns() -> Seq<Seq<char>> {
    seq![".obsidian/**"@, ".biem/**"@, ".git/**"@, ".DS_Store"@]
}

impl Default for FsWatcherConfig {
    fn default() -> (r: Self)
        ensures
            r.root@ == "."@,
            r.debounce_ms == 500,
            r.ignore_patterns.deep_view() == default_patterns(),
    {
        let mut ignore_patterns: Vec<String> = Vec::new();
        ignore_patterns.push(".obsidian/**".to_owned());
        ignore_patterns.push(".biem/**".to_owned());
        ignore_patterns.push(".git/**".to_owned());
        ignore_patterns.push(".DS_Store".to_owned());
        assert(ignore_patterns.deep_view() =~= default_patterns());
        FsWatcherConfig { root: ".".to_owned(), debounce_ms: 500, ignore_patterns }
    }
}

/// Errors of watching.
#[derive(Debug)]
pub enum WatchError {
    Watch(String),
    Io(String),
}

impl WatchError {
    /// The message of the error.
    pub fn message(&self) -> (r: String)
        ensures
            r@ == match self {
                WatchError::Watch(m) => "watch error: "@ + m@,
                WatchError::Io(m) => "IO error: "@ + m@,
            },
    {
        match self {
            WatchError::Watch(m) => text::concat("watch error: ", m.as_str()),
            WatchError::Io(m) => text::concat("IO error: ", m.as_str()),
        }
    }
}

/// A watcher of a directory.
#[derive(Debug)]
pub struct FsWatcher {
    config: FsWatcherConfig,
    ignore_set: GlobSet,
}

/// A change that the file system reports.
#[derive(Debug)]
pub struct RawChange {
    pub path: String,
    /// Whether the change has come to rest.
    pub settled: bool,
    /// Whether there is a file at the path.
    pub present: bool,
}

/// What waiting for changes gave.
#[derive(Debug)]
pub enum Notice {
    Changes(Vec<RawChange>),
    Failed(String),
    Timeout,
    Disconnected,
}

/// What the watcher does next.
#[derive(Debug)]
pub enum WatchStep {
    /// Passes changes on, and goes on waiting.
    Emit(Vec<ChangeEvent>),
    /// Goes on waiting.
    Wait,
    Stop,
}

/// Whether an event is that of a change. A file that is there may be new or changed, which the
/// pipeline finds out.
pub open spec fn is_event_of(e: ChangeEvent, c: RawChange) -> bool {
    &&& e.path@ == c.path@
    &&& if c.present {
        e.kind is Modified
    } else {
        e.kind is Deleted
    }
}

impl FsWatcher {
    /// The directory.
    pub closed spec fn root(&self) -> Seq<char> {
        self.config.root@
    }

    /// How long changes are gathered, in milliseconds.
    pub closed spec fn debounce(&self) -> u64 {
        self.config.debounce_ms
    }

    /// The globs of what is passed over.
    pub closed spec fn patterns(&self) -> Seq<Seq<char>> {
        ignore::patterns_of(self.ignore_set)
    }

    /// Whether a path is passed over: by its part below the directory, or as it is where it lies
    /// elsewhere.
    pub open spec fn ignores(&self, path: Seq<char>) -> bool {
        ignore::some_glob_matches(self.patterns(), ignore::judged_part(path, self.root()))
    }

    /// The changes, from `i` on, that are passed on.
    pub open spec fn passed_on(&self, changes: Seq<RawChange>, i: int) -> Seq<RawChange>
        decreases changes.len() - i,
    {
        if i < 0 || i >= changes.len() {
            Seq::empty()
        } else if changes[i].settled && !self.ignores(changes[i].path@) {
            seq![changes[i]] + self.passed_on(changes, i + 1)
        } else {
            self.passed_on(changes, i + 1)
        }
    }

    /// A watcher of a directory. `canonical` is the canonical path of the directory, where it has
    /// one.
    pub fn new(config: FsWatcherConfig, canonical: Option<String>) -> (r: Result<Self, WatchError>)
        ensures
            match r {
                Ok(w) => ignore::glob_error(config.ignore_patterns.deep_view()) is None
                    && w.patterns() == config.ignore_patterns.deep_view() && w.debounce()
                    == config.debounce_ms && w.root() == (
                match canonical {
                    Some(c) => c@,
                    None => config.root@,
                }),
                Err(WatchError::Watch(m)) => match ignore::glob_error(
                    config.ignore_patterns.deep_view(),
                ) {
                    Some(e) => m@ == "invalid ignore pattern: "@ + e,
                    None => false,
                },
                Err(_) => false,
            },
    {
        let ignore_set = match ignore::build_glob_set(&config.ignore_patterns) {
            Ok(s) => s,
            Err(m) => {
                return Err(
                    WatchError::Watch(text::concat("invalid ignore pattern: ", m.as_str())),
                );
            },
        };
        let root = match canonical {
            Some(c) => c,
            None => config.root,
        };
        Ok(
            FsWatcher {
                config: FsWatcherConfig {
                    root,
                    debounce_ms: config.debounce_ms,
                    ignore_patterns: config.ignore_patterns,
                },
                ignore_set,
            },
        )
    }

    /// Whether a path is passed over.
    pub fn is_ignored(&self, path: &str) -> (r: bool)
        ensures
            r == self.ignores(path@),
    {
        match paths::strip_prefix(path, self.config.root.as_str()) {
            Some(rel) => ignore::is_match(&self.ignore_set, rel.as_str()),
            None => ignore::is_match(&self.ignore_set, path),
        }
    }

    /// The events of the changes that are passed on.
    pub fn events(&self, changes: &Vec<RawChange>) -> (r: Vec<ChangeEvent>)
        ensures
            r@.len() == self.passed_on(changes@, 0).len(),
            forall|i: int|
                0 <= i < r@.len() ==> is_event_of(
                    #[trigger] r@[i],
                    self.passed_on(changes@, 0)[i],
                ),
    {
        let ghost all = self.passed_on(changes@, 0);
        let ghost mut done: Seq<RawChange> = Seq::empty();
        let mut out: Vec<ChangeEvent> = Vec::new();
        let mut i: usize = 0;
        assert(done + self.passed_on(changes@, 0) =~= all);
        while i < changes.len()
            invariant
                i <= changes@.len(),
                done + self.passed_on(changes@, i as int) == all,
                out@.len() == done.len(),
                forall|k: int| 0 <= k < out@.len() ==> is_event_of(#[trigger] out@[k], done[k]),
            decreases changes@.len() - i,
        {
            let c = &changes[i];
            let ghost rest = self.passed_on(changes@, i + 1);
            if c.settled && !self.is_ignored(c.path.as_str()) {
                let kind = if c.present {
                    ChangeKind::Modified
                } else {
                    ChangeKind::Deleted
                };
                out.push(ChangeEvent { path: c.path.clone(), kind });
                proof {
                    assert(done.push(*c) + rest =~= done + (seq![*c] + rest));
                    done = done.push(*c);
                }
            }
            i += 1;
        }
        assert(done + Seq::<RawChange>::empty() =~= done);
        out
    }

    /// What the watcher does after waiting: it stops where it was told to or where nothing can come
    /// any more, and passes changes on.
    pub fn step(&self, stopped: bool, notice: &Notice) -> (r: WatchStep)
        ensures
            match r {
                WatchStep::Stop => stopped || notice is Disconnected,
                WatchStep::Wait => !stopped && (notice is Failed || notice is Timeout),
                WatchStep::Emit(events) => !stopped && match notice {
                    Notice::Changes(changes) => {
                        let passed = self.passed_on(changes@, 0);
                        &&& events@.len() == passed.len()
                        &&& forall|i: int|
                            0 <= i < events@.len() ==> is_event_of(
                                #[trigger] events@[i],
                                passed[i],
                            )
                    },
                    _ => false,
                },
            },
    {
        if stopped {
            return WatchStep::Stop;
        }
        match notice {
            Notice::Changes(changes) => WatchStep::Emit(self.events(changes)),
            Notice::Failed(_) => WatchStep::Wait,
            Notice::Timeout => WatchStep::Wait,
            Notice::Disconnected => WatchStep::Stop,
        }
    }

    /// How long changes are gathered, in milliseconds.
    pub fn debounce_ms(&self) -> (r: u64)
        ensures
            r == self.debounce(),
    {
        self.config.debounce_ms
    }

    /// The directory.
    pub fn root_path(&self) -> (r: &str)
        ensures
            r@ == self.root(),
    {
        self.config.root.as_str()
    }
}

} // verus!
