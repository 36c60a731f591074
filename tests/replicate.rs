use bakelite_ssh_backend::materialize::{
    DirAction, DirReply, DirectoryCache, Materializer, dirs_to_materialize, parent_dirs,
};
use bakelite_ssh_backend::path::SimplePath;
use bakelite_ssh_backend::pipeline::{EntryKind, EntryPlan, Replicator, RunState, TransferError};

/// Runs one materialization against a remote on which `existing` are the
/// directories present; returns the directories probed and those created.
fn materialize(
    rep: &mut Replicator,
    dirs: Vec<String>,
    existing: &mut Vec<String>,
) -> (Vec<String>, Vec<String>) {
    let (mut m, mut action) = rep.start_dirs(dirs);
    let mut probed = Vec::new();
    let mut created = Vec::new();
    loop {
        let reply = match &action {
            DirAction::Stat(d) => {
                probed.push(d.clone());
                if existing.contains(d) {
                    DirReply::Exists
                } else {
                    DirReply::NotFound
                }
            }
            DirAction::Mkdir(d) => {
                created.push(d.clone());
                existing.push(d.clone());
                DirReply::Created
            }
            DirAction::Done => return (probed, created),
            DirAction::Abort(d) => panic!("aborted at {}", d),
        };
        action = rep.dir_step(&mut m, reply);
    }
}

fn home_remote() -> Vec<String> {
    vec!["/".to_string(), "/home".to_string(), "/home/u".to_string()]
}

#[test]
fn path_from_str_parses() {
    let p: SimplePath = "a\\b//".into();
    assert_eq!(p.as_str(), "a/b");
    assert_eq!(SimplePath::from("/x/").as_str(), "/x");
}

#[test]
fn cache_contains_and_insert() {
    let mut c = DirectoryCache::new();
    assert!(!c.contains("/a"));
    c.insert("/a");
    c.insert("/a");
    assert!(c.contains("/a"));
    assert!(!c.contains("/a/b"));
}

#[test]
fn dirs_are_root_first() {
    let p = SimplePath::new("/x/y/z");
    assert_eq!(dirs_to_materialize(&p), vec!["/", "/x", "/x/y", "/x/y/z"]);
    assert_eq!(parent_dirs(&p), vec!["/", "/x", "/x/y"]);
    assert!(dirs_to_materialize(&SimplePath::new("")).is_empty());
    assert_eq!(dirs_to_materialize(&SimplePath::new("rel/d")), vec!["rel", "rel/d"]);
    assert!(parent_dirs(&SimplePath::new("f")).is_empty());
}

#[test]
fn single_file_scenario_completes() {
    let mut rep = Replicator::new(SimplePath::new("/home/u"));
    let mut remote = home_remote();
    let scratch = rep.scratch_dirs();
    assert_eq!(rep.scratch_path().as_str(), "/home/u/.tmp");
    let (_, mut created) = materialize(&mut rep, scratch, &mut remote);
    match rep.plan_entry(EntryKind::File, "a/b/c.txt", 4096) {
        EntryPlan::Transfer { dest, dirs, size } => {
            assert_eq!(dest, "/home/u/a/b/c.txt");
            assert_eq!(size, 4096);
            let (_, more) = materialize(&mut rep, dirs, &mut remote);
            created.extend(more);
            assert_eq!(rep.finish_entry(size, 4096), Ok(()));
        }
        other => panic!("unexpected plan {:?}", other),
    }
    assert_eq!(created, vec!["/home/u/.tmp", "/home/u/a", "/home/u/a/b"]);
    assert!(rep.complete());
    assert_eq!(rep.state(), RunState::Completed);
}

#[test]
fn short_write_aborts_run() {
    let mut rep = Replicator::new(SimplePath::new("/home/u"));
    let mut remote = home_remote();
    let scratch = rep.scratch_dirs();
    materialize(&mut rep, scratch, &mut remote);
    match rep.plan_entry(EntryKind::File, "a/b/c.txt", 4096) {
        EntryPlan::Transfer { dirs, size, .. } => {
            materialize(&mut rep, dirs, &mut remote);
            assert_eq!(
                rep.finish_entry(size, 4000),
                Err(TransferError::SizeMismatch { expected: 4096, actual: 4000 })
            );
        }
        other => panic!("unexpected plan {:?}", other),
    }
    assert_eq!(rep.state(), RunState::Aborted);
    assert!(matches!(rep.plan_entry(EntryKind::File, "d.txt", 1), EntryPlan::Halt));
    assert!(!rep.complete());
}

#[test]
fn shared_ancestors_probed_once() {
    let mut rep = Replicator::new(SimplePath::new("/home/u"));
    let mut remote = home_remote();
    let mut all_probed = Vec::new();
    for name in ["a/x.txt", "a/y.txt", "a/b/z.txt"] {
        if let EntryPlan::Transfer { dirs, .. } = rep.plan_entry(EntryKind::File, name, 1) {
            let (probed, _) = materialize(&mut rep, dirs, &mut remote);
            all_probed.extend(probed);
        }
    }
    assert_eq!(all_probed, vec!["/", "/home", "/home/u", "/home/u/a", "/home/u/a/b"]);
}

#[test]
fn non_file_entries_are_skipped() {
    let rep = Replicator::new(SimplePath::new("base"));
    assert!(matches!(rep.plan_entry(EntryKind::Directory, "d/", 0), EntryPlan::Skip));
    assert!(matches!(rep.plan_entry(EntryKind::Symlink, "l", 0), EntryPlan::Skip));
    assert!(matches!(rep.plan_entry(EntryKind::Other, "o", 0), EntryPlan::Skip));
}

#[test]
fn rooted_entry_path_replaces_base() {
    let rep = Replicator::new(SimplePath::new("base"));
    match rep.plan_entry(EntryKind::File, "/etc/f", 3) {
        EntryPlan::Transfer { dest, dirs, .. } => {
            assert_eq!(dest, "/etc/f");
            assert_eq!(dirs, vec!["/", "/etc"]);
        }
        other => panic!("unexpected plan {:?}", other),
    }
}

#[test]
fn failures_abort_materialization() {
    let mut rep = Replicator::new(SimplePath::new("/s"));
    let (mut m, a) = rep.start_dirs(vec!["/s".to_string()]);
    assert!(matches!(a, DirAction::Stat(ref d) if d == "/s"));
    let a = rep.dir_step(&mut m, DirReply::NotFound);
    assert!(matches!(a, DirAction::Mkdir(ref d) if d == "/s"));
    let a = rep.dir_step(&mut m, DirReply::Failed);
    assert!(matches!(a, DirAction::Abort(ref d) if d == "/s"));
    assert_eq!(rep.state(), RunState::Aborted);

    let mut rep = Replicator::new(SimplePath::new("/s"));
    let (mut m, _) = rep.start_dirs(vec!["/s".to_string()]);
    let a = rep.dir_step(&mut m, DirReply::Failed);
    assert!(matches!(a, DirAction::Abort(ref d) if d == "/s"));
}

#[test]
fn create_race_counts_as_success() {
    let mut rep = Replicator::new(SimplePath::new("/s"));
    let (mut m, _) = rep.start_dirs(vec!["/s".to_string(), "/s/t".to_string()]);
    let a = rep.dir_step(&mut m, DirReply::NotFound);
    assert!(matches!(a, DirAction::Mkdir(_)));
    let a = rep.dir_step(&mut m, DirReply::AlreadyExists);
    assert!(matches!(a, DirAction::Stat(ref d) if d == "/s/t"));
    let a = rep.dir_step(&mut m, DirReply::Exists);
    assert!(matches!(a, DirAction::Done));
    assert_eq!(rep.state(), RunState::Running);
    let (m, a) = Materializer::start(Vec::new(), &DirectoryCache::new());
    assert!(matches!(a, DirAction::Done));
    let _ = m;
}
