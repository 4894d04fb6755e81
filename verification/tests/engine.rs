use std::collections::BTreeMap;
use std::path::PathBuf;

use fuc_engine::{
    chmod, chmod_file, chmod_impl, Action, Child, ChmodMode, ChmodOp, Context, EntryKind, Error,
    Event, IoFailure, IoKind, Job, ModeParseError, Operation, Progress, Reply, Traversal,
};

const FILE: u32 = 0o100000;
const DIRECTORY: u32 = 0o040000;
const LINK: u32 = 0o120000;

#[derive(Clone, Copy, PartialEq, Eq)]
enum Order {
    NewestFirst,
    OldestFirst,
}

struct Entry {
    kind: EntryKind,
    mode: u32,
}

/// A filesystem in memory that records every access made to it.
struct FakeFs {
    entries: BTreeMap<Vec<u8>, Entry>,
    refused: Vec<(Vec<u8>, Action)>,
    log: Vec<(Vec<u8>, Action)>,
}

fn path(text: &str) -> Vec<u8> {
    text.as_bytes().to_vec()
}

fn denied() -> IoFailure {
    IoFailure { kind: IoKind::Other, os_code: Some(13) }
}

fn missing() -> IoFailure {
    IoFailure { kind: IoKind::NotFound, os_code: Some(2) }
}

impl FakeFs {
    fn new() -> FakeFs {
        FakeFs { entries: BTreeMap::new(), refused: Vec::new(), log: Vec::new() }
    }

    fn dir(mut self, at: &str, bits: u32) -> FakeFs {
        self.entries.insert(path(at), Entry { kind: EntryKind::Directory, mode: DIRECTORY | bits });
        self
    }

    fn file(mut self, at: &str, bits: u32) -> FakeFs {
        self.entries.insert(path(at), Entry { kind: EntryKind::File, mode: FILE | bits });
        self
    }

    fn link(mut self, at: &str) -> FakeFs {
        self.entries.insert(path(at), Entry { kind: EntryKind::Symlink, mode: LINK | 0o777 });
        self
    }

    fn refusing(mut self, at: &str, action: Action) -> FakeFs {
        self.refused.push((path(at), action));
        self
    }

    fn bits(&self, at: &str) -> u32 {
        self.entries[&path(at)].mode & 0o7777
    }

    fn children(&self, of: &[u8]) -> Vec<Child> {
        let mut prefix = of.to_vec();
        prefix.push(b'/');
        self.entries
            .iter()
            .filter(|(p, _)| p.starts_with(&prefix) && !p[prefix.len()..].contains(&b'/'))
            .map(|(p, e)| Child { path: p.clone(), kind: e.kind })
            .collect()
    }

    fn perform(&mut self, job: &Job) -> Reply {
        self.log.push((job.path.clone(), job.action));
        let refused = self.refused.iter().any(|(p, a)| {
            *p == job.path
                && match (a, job.action) {
                    (Action::WriteMode(_), Action::WriteMode(_)) => true,
                    (a, b) => *a == b,
                }
        });
        if refused {
            return Reply::Failed(denied());
        }
        if !self.entries.contains_key(&job.path) {
            return Reply::Failed(missing());
        }
        match job.action {
            Action::Probe => Reply::Kind(self.entries[&job.path].kind),
            Action::List => Reply::Children(self.children(&job.path)),
            Action::ReadMode => Reply::Mode(self.entries[&job.path].mode),
            Action::WriteMode(bits) => {
                let entry = self.entries.get_mut(&job.path).unwrap();
                entry.mode = (entry.mode & !0o7777) | bits;
                Reply::Written
            }
        }
    }

    fn accesses(&self, action: fn(&Action) -> bool) -> Vec<String> {
        self.log
            .iter()
            .filter(|(_, a)| action(a))
            .map(|(p, _)| String::from_utf8(p.clone()).unwrap())
            .collect()
    }

    fn writes(&self) -> Vec<String> {
        self.accesses(|a| matches!(a, Action::WriteMode(_)))
    }

    fn lists(&self) -> Vec<String> {
        self.accesses(|a| matches!(a, Action::List))
    }

    fn written_at(&self, at: &str) -> usize {
        let writes = self.writes();
        assert_eq!(writes.iter().filter(|p| *p == at).count(), 1, "{at} written once");
        writes.iter().position(|p| p == at).unwrap()
    }
}

/// Performs the accesses the engine asks for, one at a time, until the run ends.
fn drive(fs: &mut FakeFs, start: (Traversal, Progress), order: Order) -> Result<(), Error> {
    let (mut engine, mut progress) = start;
    let mut queue: Vec<Job> = Vec::new();
    loop {
        match progress {
            Progress::Finished(outcome) => {
                assert!(queue.is_empty(), "the run ended with accesses outstanding");
                assert!(engine.is_finished());
                return outcome;
            }
            Progress::Continue(jobs) => queue.extend(jobs),
        }
        assert!(!engine.is_finished());
        let job = match order {
            Order::NewestFirst => queue.pop().unwrap(),
            Order::OldestFirst => queue.remove(0),
        };
        let reply = fs.perform(&job);
        progress = engine.step(Event { node: job.node, reply });
    }
}

/// As `drive`, but leaves out every access the engine no longer wants.
fn drive_thriftily(fs: &mut FakeFs, start: (Traversal, Progress)) -> Result<(), Error> {
    let (mut engine, mut progress) = start;
    let mut queue: Vec<Job> = Vec::new();
    loop {
        match progress {
            Progress::Finished(outcome) => {
                assert!(queue.is_empty(), "the run ended with accesses outstanding");
                return outcome;
            }
            Progress::Continue(jobs) => queue.extend(jobs),
        }
        let job = queue.remove(0);
        let reply = if engine.is_wanted(job.node) { fs.perform(&job) } else { Reply::Skipped };
        progress = engine.step(Event { node: job.node, reply });
    }
}

fn run(fs: &mut FakeFs, roots: &[&str], mode: &str, force: bool, order: Order) -> Result<(), Error> {
    let files = roots.iter().map(|r| path(r)).collect();
    drive(fs, chmod(files, mode, force, 0o022), order)
}

fn small_tree() -> FakeFs {
    FakeFs::new().dir("/d", 0o755).file("/d/a", 0o600).dir("/d/b", 0o700).file("/d/b/c", 0o666)
}

fn wide_tree() -> FakeFs {
    FakeFs::new()
        .dir("/r", 0o700)
        .dir("/r/x", 0o700)
        .dir("/r/x/deep", 0o700)
        .file("/r/x/deep/one", 0o600)
        .file("/r/x/deep/two", 0o600)
        .dir("/r/y", 0o700)
        .file("/r/y/three", 0o600)
        .dir("/r/empty", 0o700)
        .file("/r/four", 0o600)
        .link("/r/link")
}

fn check_children_first(fs: &FakeFs) {
    let writes = fs.writes();
    for (i, parent) in writes.iter().enumerate() {
        let prefix = format!("{parent}/");
        for later in &writes[i + 1..] {
            assert!(!later.starts_with(&prefix), "{later} was written after {parent}");
        }
    }
}

#[test]
fn children_are_written_before_their_directory() {
    for order in [Order::NewestFirst, Order::OldestFirst] {
        let mut fs = small_tree();
        assert_eq!(run(&mut fs, &["/d"], "644", false, order), Ok(()));
        assert!(fs.written_at("/d/a") < fs.written_at("/d"));
        assert!(fs.written_at("/d/b/c") < fs.written_at("/d/b"));
        assert!(fs.written_at("/d/b") < fs.written_at("/d"));
        assert_eq!(fs.writes().len(), 4);
        for at in ["/d", "/d/a", "/d/b", "/d/b/c"] {
            assert_eq!(fs.bits(at), 0o644);
        }
    }
}

#[test]
fn every_entry_is_visited_once_in_any_order() {
    for order in [Order::NewestFirst, Order::OldestFirst] {
        let mut fs = wide_tree();
        assert_eq!(run(&mut fs, &["/r"], "750", false, order), Ok(()));
        let mut writes = fs.writes();
        check_children_first(&fs);
        writes.sort();
        let mut all: Vec<String> =
            fs.entries.keys().map(|p| String::from_utf8(p.clone()).unwrap()).collect();
        all.sort();
        assert_eq!(writes, all);
        let mut lists = fs.lists();
        lists.sort();
        assert_eq!(lists, vec!["/r", "/r/empty", "/r/x", "/r/x/deep", "/r/y"]);
        for at in &all {
            assert_eq!(fs.bits(at), 0o750);
        }
    }
}

#[test]
fn absolute_modes_never_read_the_current_bits() {
    let mut fs = wide_tree();
    assert_eq!(run(&mut fs, &["/r"], "700", false, Order::NewestFirst), Ok(()));
    assert!(fs.accesses(|a| matches!(a, Action::ReadMode)).is_empty());
}

#[test]
fn written_bits_read_back() {
    let mut fs = FakeFs::new().file("/f", 0o600);
    assert_eq!(run(&mut fs, &["/f"], "755", false, Order::NewestFirst), Ok(()));
    assert_eq!(fs.bits("/f"), 0o755);
    assert_eq!(fs.entries[&path("/f")].mode, FILE | 0o755);
    assert_eq!(run(&mut fs, &["/f"], "755", false, Order::NewestFirst), Ok(()));
    assert_eq!(fs.bits("/f"), 0o755);
}

#[test]
fn symbolic_modes_read_then_write() {
    let mut fs = small_tree();
    assert_eq!(run(&mut fs, &["/d"], "u+x,go-w", false, Order::OldestFirst), Ok(()));
    assert_eq!(fs.bits("/d/a"), 0o700);
    assert_eq!(fs.bits("/d/b/c"), 0o744);
    assert_eq!(fs.bits("/d/b"), 0o700);
    assert_eq!(fs.bits("/d"), 0o755);
    check_children_first(&fs);
    for at in ["/d", "/d/a", "/d/b", "/d/b/c"] {
        let read = fs.log.iter().position(|(p, a)| *p == path(at) && *a == Action::ReadMode);
        let write = fs.log.iter().position(|(p, a)| {
            *p == path(at) && matches!(a, Action::WriteMode(_))
        });
        assert!(read.unwrap() < write.unwrap());
    }
}

#[test]
fn symbolic_owner_execute_on_a_file() {
    let mut fs = FakeFs::new().file("/f", 0o644);
    assert_eq!(run(&mut fs, &["/f"], "u+x", false, Order::NewestFirst), Ok(()));
    assert_eq!(fs.bits("/f"), 0o744);
}

#[test]
fn a_malformed_symbolic_mode_fails_on_the_first_entry() {
    let mut fs = small_tree();
    assert_eq!(
        run(&mut fs, &["/d"], "u+q", false, Order::NewestFirst),
        Err(Error::FileMode(ModeParseError::UnexpectedChar("[rwxXst]", 'q')))
    );
    assert!(fs.writes().is_empty());
    let mut fs = FakeFs::new().file("/f", 0o644);
    assert_eq!(
        run(&mut fs, &["/f"], "rwx", false, Order::NewestFirst),
        Err(Error::FileMode(ModeParseError::UnexpectedChar("[-+=]", 'r')))
    );
    assert_eq!(fs.bits("/f"), 0o644);
}

#[test]
fn a_missing_root_fails_the_run() {
    let mut fs = FakeFs::new();
    assert_eq!(
        run(&mut fs, &["/nowhere"], "644", false, Order::NewestFirst),
        Err(Error::NotFound { file: path("/nowhere") })
    );
    assert!(fs.writes().is_empty());
    assert_eq!(fs.log, vec![(path("/nowhere"), Action::Probe)]);
}

#[test]
fn a_missing_root_is_skipped_when_forced() {
    let mut fs = FakeFs::new();
    assert_eq!(run(&mut fs, &["/nowhere"], "644", true, Order::NewestFirst), Ok(()));
    assert_eq!(fs.log, vec![(path("/nowhere"), Action::Probe)]);

    let mut fs = FakeFs::new().file("/a", 0o600).file("/c", 0o600);
    assert_eq!(run(&mut fs, &["/a", "/b", "/c"], "644", true, Order::NewestFirst), Ok(()));
    assert_eq!(fs.writes(), vec!["/a", "/c"]);
}

#[test]
fn roots_are_processed_in_order_until_one_fails() {
    let mut fs = FakeFs::new().file("/a", 0o600).file("/c", 0o600);
    assert_eq!(
        run(&mut fs, &["/a", "/b", "/c"], "644", false, Order::NewestFirst),
        Err(Error::NotFound { file: path("/b") })
    );
    assert_eq!(fs.writes(), vec!["/a"]);
    assert_eq!(fs.bits("/c"), 0o600);
}

#[test]
fn a_refused_metadata_read_is_fatal_even_when_forced() {
    let mut fs = FakeFs::new().file("/a", 0o600).refusing("/a", Action::Probe);
    assert_eq!(
        run(&mut fs, &["/a"], "644", true, Order::NewestFirst),
        Err(Error::Io {
            error: denied(),
            context: Context { operation: Operation::ReadMetadata, path: path("/a") },
        })
    );
    assert!(fs.writes().is_empty());
}

#[test]
fn a_trailing_separator_changes_nothing() {
    let mut without = small_tree();
    assert_eq!(run(&mut without, &["/d"], "640", false, Order::NewestFirst), Ok(()));
    for root in ["/d/", "/d//", "/d////"] {
        let mut with = small_tree();
        assert_eq!(run(&mut with, &[root], "640", false, Order::NewestFirst), Ok(()));
        assert_eq!(with.log, without.log);
        assert_eq!(with.log[0], (path("/d"), Action::Probe));
        assert_eq!(with.log[1], (path("/d"), Action::List));
    }

    for root in ["/gone/", "/gone//"] {
        let mut fs = FakeFs::new();
        assert_eq!(
            run(&mut fs, &[root], "640", false, Order::NewestFirst),
            Err(Error::NotFound { file: path("/gone") })
        );
    }
}

#[test]
fn a_root_of_separators_only_is_the_empty_path() {
    let mut fs = FakeFs::new().dir("/", 0o755);
    assert_eq!(
        run(&mut fs, &["/"], "640", false, Order::NewestFirst),
        Err(Error::NotFound { file: Vec::new() })
    );
    assert_eq!(fs.log, vec![(Vec::new(), Action::Probe)]);
}

#[test]
fn symlinks_are_written_and_never_entered() {
    let mut fs = FakeFs::new()
        .dir("/t", 0o755)
        .link("/t/l")
        .file("/t/l/behind", 0o600)
        .dir("/target", 0o755);
    assert_eq!(run(&mut fs, &["/t"], "700", false, Order::NewestFirst), Ok(()));
    assert_eq!(fs.lists(), vec!["/t"]);
    assert_eq!(fs.writes(), vec!["/t/l", "/t"]);
    assert_eq!(fs.bits("/t/l/behind"), 0o600);

    let mut fs = FakeFs::new().link("/l").file("/l/behind", 0o600);
    assert_eq!(run(&mut fs, &["/l"], "700", false, Order::NewestFirst), Ok(()));
    assert!(fs.lists().is_empty());
    assert_eq!(fs.writes(), vec!["/l"]);
}

#[test]
fn a_failed_child_keeps_its_ancestors_unwritten() {
    for order in [Order::NewestFirst, Order::OldestFirst] {
        let mut fs = wide_tree().refusing("/r/x/deep/one", Action::WriteMode(0));
        assert_eq!(
            run(&mut fs, &["/r"], "750", false, order),
            Err(Error::Io {
                error: denied(),
                context: Context { operation: Operation::WriteMode, path: path("/r/x/deep/one") },
            })
        );
        let writes = fs.writes();
        for at in ["/r", "/r/x", "/r/x/deep"] {
            assert!(!writes.iter().any(|p| p == at), "{at} must not be written");
        }
        for at in ["/r/x/deep/two", "/r/y/three", "/r/y", "/r/empty", "/r/four", "/r/link"] {
            assert_eq!(fs.bits(at), 0o750, "{at} is independent of the failure");
        }
        assert_eq!(fs.bits("/r"), 0o700);
        check_children_first(&fs);
    }
}

#[test]
fn the_first_failure_is_the_one_reported() {
    let mut fs = wide_tree()
        .refusing("/r/four", Action::WriteMode(0))
        .refusing("/r/y", Action::List);
    let outcome = run(&mut fs, &["/r"], "750", false, Order::OldestFirst);
    let first = fs
        .log
        .iter()
        .find(|(p, _)| *p == path("/r/four") || *p == path("/r/y"))
        .map(|(p, _)| p.clone())
        .unwrap();
    let operation =
        if first == path("/r/y") { Operation::ReadDirectory } else { Operation::WriteMode };
    assert_eq!(
        outcome,
        Err(Error::Io { error: denied(), context: Context { operation, path: first } })
    );
}

#[test]
fn an_unreadable_directory_fails_its_subtree() {
    let mut fs = small_tree().refusing("/d/b", Action::List);
    assert_eq!(
        run(&mut fs, &["/d"], "644", false, Order::NewestFirst),
        Err(Error::Io {
            error: denied(),
            context: Context { operation: Operation::ReadDirectory, path: path("/d/b") },
        })
    );
    assert_eq!(fs.writes(), vec!["/d/a"]);
}

#[test]
fn an_unreadable_mode_fails_the_entry() {
    let mut fs = small_tree().refusing("/d/a", Action::ReadMode);
    assert_eq!(
        run(&mut fs, &["/d"], "g+r", false, Order::OldestFirst),
        Err(Error::Io {
            error: denied(),
            context: Context { operation: Operation::ReadMode, path: path("/d/a") },
        })
    );
    assert_eq!(fs.bits("/d/a"), 0o600);
    assert_eq!(fs.bits("/d/b/c"), 0o666);
    assert_eq!(fs.bits("/d/b"), 0o740);
    assert_eq!(fs.bits("/d"), 0o755);
}

#[test]
fn an_empty_directory_is_written_at_once() {
    let mut fs = FakeFs::new().dir("/e", 0o700);
    assert_eq!(run(&mut fs, &["/e"], "755", false, Order::NewestFirst), Ok(()));
    assert_eq!(
        fs.log,
        vec![
            (path("/e"), Action::Probe),
            (path("/e"), Action::List),
            (path("/e"), Action::WriteMode(0o755)),
        ]
    );
}

#[test]
fn a_run_without_roots_is_over_at_once() {
    let (engine, progress) = chmod(Vec::new(), "644", false, 0);
    assert_eq!(progress, Progress::Finished(Ok(())));
    assert!(engine.is_finished());
}

#[test]
fn the_first_access_probes_the_first_root() {
    let (engine, progress) = chmod(vec![path("/a/"), path("/b")], "644", false, 0);
    assert!(!engine.is_finished());
    assert_eq!(
        progress,
        Progress::Continue(vec![Job { node: 0, path: path("/a"), action: Action::Probe }])
    );
}

#[test]
fn children_get_their_first_access_together() {
    let (mut engine, _) = chmod(vec![path("/d")], "u+w", false, 0);
    let progress = engine.step(Event { node: 0, reply: Reply::Kind(EntryKind::Directory) });
    assert_eq!(
        progress,
        Progress::Continue(vec![Job { node: 0, path: path("/d"), action: Action::List }])
    );
    let children = vec![
        Child { path: path("/d/sub"), kind: EntryKind::Directory },
        Child { path: path("/d/file"), kind: EntryKind::File },
        Child { path: path("/d/link"), kind: EntryKind::Symlink },
        Child { path: path("/d/pipe"), kind: EntryKind::Other },
    ];
    let progress = engine.step(Event { node: 0, reply: Reply::Children(children) });
    assert_eq!(
        progress,
        Progress::Continue(vec![
            Job { node: 1, path: path("/d/sub"), action: Action::List },
            Job { node: 2, path: path("/d/file"), action: Action::ReadMode },
            Job { node: 3, path: path("/d/link"), action: Action::ReadMode },
            Job { node: 4, path: path("/d/pipe"), action: Action::ReadMode },
        ])
    );
    let progress = engine.step(Event { node: 2, reply: Reply::Mode(FILE | 0o444) });
    assert_eq!(
        progress,
        Progress::Continue(vec![Job {
            node: 2,
            path: path("/d/file"),
            action: Action::WriteMode(0o644),
        }])
    );
    assert_eq!(
        engine.step(Event { node: 2, reply: Reply::Written }),
        Progress::Continue(Vec::new())
    );
}

#[test]
fn an_answer_nobody_asked_for_ends_the_run() {
    let (mut engine, _) = chmod(vec![path("/d")], "644", false, 0);
    assert_eq!(
        engine.step(Event { node: 0, reply: Reply::Written }),
        Progress::Finished(Err(Error::Internal))
    );
    assert!(engine.is_finished());
    assert_eq!(
        engine.step(Event { node: 0, reply: Reply::Kind(EntryKind::File) }),
        Progress::Finished(Err(Error::Internal))
    );

    let (mut engine, _) = chmod(vec![path("/d")], "644", false, 0);
    assert_eq!(
        engine.step(Event { node: 7, reply: Reply::Kind(EntryKind::File) }),
        Progress::Finished(Err(Error::Internal))
    );
}

#[test]
fn an_engine_takes_its_roots_once() {
    let mut engine = chmod_impl(ChmodMode::Octal(0o644), 0, false);
    assert!(!engine.is_finished());
    assert_eq!(
        engine.schedule(vec![path("/a/")]),
        Progress::Continue(vec![Job { node: 0, path: path("/a"), action: Action::Probe }])
    );
    assert_eq!(engine.schedule(vec![path("/b")]), Progress::Finished(Err(Error::Internal)));
}

#[test]
fn a_single_file_is_written_directly() {
    let mut fs = FakeFs::new().file("/only", 0o600);
    let start = chmod_file(path("/only"), ChmodMode::Octal(0o640), 0o022);
    assert_eq!(drive(&mut fs, start, Order::NewestFirst), Ok(()));
    assert_eq!(
        fs.log,
        vec![(path("/only"), Action::Probe), (path("/only"), Action::WriteMode(0o640))]
    );

    let mut fs = FakeFs::new();
    let start = chmod_file(path("/only"), ChmodMode::Octal(0o640), 0o022);
    assert_eq!(
        drive(&mut fs, start, Order::NewestFirst),
        Err(Error::NotFound { file: path("/only") })
    );
}

#[test]
fn a_request_runs_as_it_was_built() {
    let mut fs = small_tree();
    let op = ChmodOp {
        files: vec![path("/missing"), path("/d/b/")],
        mode: ChmodMode::new("a+x"),
        force: true,
        umask: 0o077,
    };
    assert_eq!(drive(&mut fs, op.run(), Order::OldestFirst), Ok(()));
    assert_eq!(fs.writes(), vec!["/d/b/c", "/d/b"]);
    assert_eq!(fs.bits("/d/b/c"), 0o777);
    assert_eq!(fs.bits("/d/b"), 0o711);
    assert_eq!(fs.bits("/d/a"), 0o600);
}

#[test]
fn accesses_beside_a_failure_may_be_left_out() {
    let mut fs = FakeFs::new()
        .dir("/d", 0o700)
        .file("/d/a", 0o600)
        .file("/d/b", 0o600)
        .dir("/d/c", 0o700)
        .file("/d/c/x", 0o600)
        .refusing("/d/a", Action::WriteMode(0));
    let outcome = drive_thriftily(&mut fs, chmod(vec![path("/d")], "644", false, 0));
    assert_eq!(
        outcome,
        Err(Error::Io {
            error: denied(),
            context: Context { operation: Operation::WriteMode, path: path("/d/a") },
        })
    );
    assert_eq!(
        fs.log,
        vec![
            (path("/d"), Action::Probe),
            (path("/d"), Action::List),
            (path("/d/a"), Action::WriteMode(0o644)),
        ]
    );
    for at in ["/d/a", "/d/b", "/d/c/x"] {
        assert_eq!(fs.bits(at), 0o600);
    }
}

#[test]
fn a_thrifty_run_without_failures_is_an_ordinary_run() {
    let mut thrifty = wide_tree();
    let mut plain = wide_tree();
    assert_eq!(drive_thriftily(&mut thrifty, chmod(vec![path("/r")], "g+w", false, 0)), Ok(()));
    assert_eq!(run(&mut plain, &["/r"], "g+w", false, Order::OldestFirst), Ok(()));
    assert_eq!(thrifty.log, plain.log);
}

#[test]
fn an_access_is_wanted_until_a_sibling_fails() {
    let (mut engine, _) = chmod(vec![path("/d")], "644", false, 0);
    assert!(engine.is_wanted(0));
    assert!(!engine.is_wanted(1));
    engine.step(Event { node: 0, reply: Reply::Kind(EntryKind::Directory) });
    let children = vec![
        Child { path: path("/d/a"), kind: EntryKind::File },
        Child { path: path("/d/b"), kind: EntryKind::File },
        Child { path: path("/d/c"), kind: EntryKind::Directory },
    ];
    engine.step(Event { node: 0, reply: Reply::Children(children) });
    assert!(engine.is_wanted(1) && engine.is_wanted(2) && engine.is_wanted(3));
    assert_eq!(
        engine.step(Event { node: 1, reply: Reply::Failed(denied()) }),
        Progress::Continue(Vec::new())
    );
    assert!(engine.is_wanted(0));
    assert!(!engine.is_wanted(2) && !engine.is_wanted(3));
    assert_eq!(
        engine.step(Event { node: 3, reply: Reply::Skipped }),
        Progress::Continue(Vec::new())
    );
    assert_eq!(
        engine.step(Event { node: 2, reply: Reply::Written }),
        Progress::Finished(Err(Error::Io {
            error: denied(),
            context: Context { operation: Operation::WriteMode, path: path("/d/a") },
        }))
    );
    assert!(!engine.is_wanted(0));
}

#[test]
fn leaving_out_a_wanted_access_ends_the_run() {
    let (mut engine, _) = chmod(vec![path("/f")], "644", false, 0);
    engine.step(Event { node: 0, reply: Reply::Kind(EntryKind::File) });
    assert_eq!(
        engine.step(Event { node: 0, reply: Reply::Skipped }),
        Progress::Finished(Err(Error::Internal))
    );

    let (mut engine, _) = chmod(vec![path("/f")], "644", false, 0);
    assert_eq!(
        engine.step(Event { node: 0, reply: Reply::Skipped }),
        Progress::Finished(Err(Error::Internal))
    );
}

#[test]
fn a_failure_waits_for_the_accesses_still_outstanding() {
    let (mut engine, _) = chmod(vec![path("/d"), path("/next")], "u+r", false, 0);
    engine.step(Event { node: 0, reply: Reply::Kind(EntryKind::Directory) });
    let children = vec![
        Child { path: path("/d/a"), kind: EntryKind::File },
        Child { path: path("/d/b"), kind: EntryKind::File },
    ];
    engine.step(Event { node: 0, reply: Reply::Children(children) });
    assert_eq!(
        engine.step(Event { node: 2, reply: Reply::Failed(missing()) }),
        Progress::Continue(Vec::new())
    );
    assert_eq!(
        engine.step(Event { node: 1, reply: Reply::Mode(FILE | 0o200) }),
        Progress::Continue(vec![Job {
            node: 1,
            path: path("/d/a"),
            action: Action::WriteMode(0o600),
        }])
    );
    assert!(!engine.is_finished());
    assert_eq!(
        engine.step(Event { node: 1, reply: Reply::Written }),
        Progress::Finished(Err(Error::Io {
            error: missing(),
            context: Context { operation: Operation::ReadMode, path: path("/d/b") },
        }))
    );
}

#[test]
fn a_request_is_strict_until_told_otherwise() {
    let op = ChmodOp::new(vec![path("/gone")], ChmodMode::new("600"), 0o022);
    assert!(!op.force);
    assert_eq!(op.umask, 0o022);
    assert_eq!(op.files, vec![path("/gone")]);
    assert!(matches!(op.mode, ChmodMode::Octal(0o600)));
    let mut fs = FakeFs::new();
    assert_eq!(
        drive(&mut fs, op.run(), Order::NewestFirst),
        Err(Error::NotFound { file: path("/gone") })
    );

    let op = ChmodOp::new(vec![path("/gone")], ChmodMode::new("600"), 0o022).force(true);
    assert!(op.force);
    let mut fs = FakeFs::new();
    assert_eq!(drive(&mut fs, op.run(), Order::NewestFirst), Ok(()));
    assert!(fs.writes().is_empty());
}

fn command() -> clap::Command {
    clap::Command::new("chmodz")
        .infer_subcommands(true)
        .infer_long_args(true)
        .disable_help_flag(true)
        .arg_required_else_help(true)
        .max_term_width(100)
        .arg(
            clap::Arg::new("mode")
                .help("The desired mode (octal or symbolic)")
                .required(true)
                .allow_hyphen_values(true),
        )
        .arg(
            clap::Arg::new("files")
                .help("The files and/or directories to have their mode changed")
                .required(true)
                .num_args(1..)
                .value_parser(clap::builder::PathBufValueParser::new())
                .value_hint(clap::ValueHint::AnyPath),
        )
        .arg(
            clap::Arg::new("force")
                .help("Ignore files that do not exist")
                .short('f')
                .long("force")
                .action(clap::ArgAction::SetTrue),
        )
        .arg(
            clap::Arg::new("help")
                .short('h')
                .long("help")
                .short_alias('?')
                .global(true)
                .action(clap::ArgAction::Help)
                .help("Print help (use `--help` for more detail)")
                .long_help("Print help (use `-h` for a summary)"),
        )
}

#[test]
fn verify_app() {
    command().debug_assert();

    let matches = command()
        .try_get_matches_from(["chmodz", "--force", "644", "/d/", "/missing"])
        .unwrap();
    let mode = matches.get_one::<String>("mode").unwrap().clone();
    let files: Vec<Vec<u8>> = matches
        .get_many::<PathBuf>("files")
        .unwrap()
        .map(|p| path(p.to_str().unwrap()))
        .collect();
    let force = matches.get_flag("force");
    assert!(force);

    let mut fs = small_tree();
    assert_eq!(drive(&mut fs, chmod(files, &mode, force, 0o022), Order::NewestFirst), Ok(()));
    for at in ["/d", "/d/a", "/d/b", "/d/b/c"] {
        assert_eq!(fs.bits(at), 0o644);
    }
    assert!(command().try_get_matches_from(["chmodz", "644"]).is_err());
}
