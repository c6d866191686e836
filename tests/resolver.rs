use find_duplicates::grouping::group_file_paths_by_hash;
use find_duplicates::resolver::{materialize, Command, Phase, ReviewSession};
use std::collections::BTreeMap;

fn s(v: &[&str]) -> Vec<String> {
    v.iter().map(|x| x.to_string()).collect()
}

/// A directory tree held in memory: the target directory's file names and
/// each duplicate folder's file names.
struct Disk {
    target: Vec<String>,
    folders: BTreeMap<String, Vec<String>>,
    scratch_root: bool,
}

impl Disk {
    fn new(files: &[&str]) -> Disk {
        Disk { target: s(files), folders: BTreeMap::new(), scratch_root: false }
    }

    fn listings(&self, session: &ReviewSession) -> Vec<Vec<String>> {
        session.folders.iter().map(|f| self.folders[f].clone()).collect()
    }

    fn restore(&mut self, file: &str) {
        for files in self.folders.values_mut() {
            files.retain(|x| x != file);
        }
        self.target.push(file.to_string());
    }
}

fn setup(files: &[&str], digests: Vec<Option<[u8; 32]>>) -> (Disk, ReviewSession) {
    let mut disk = Disk::new(files);
    let groups = group_file_paths_by_hash(&s(files), &digests);
    let plans = materialize(&groups);
    for p in &plans {
        disk.scratch_root = true;
        disk.folders.insert(p.name.clone(), Vec::new());
        for m in &p.members {
            disk.target.retain(|x| x != m);
            disk.folders.get_mut(&p.name).unwrap().push(m.clone());
        }
    }
    let session = ReviewSession::new(&plans);
    (disk, session)
}

fn run(disk: &mut Disk, session: &mut ReviewSession, cmd: Command) -> usize {
    let listings = disk.listings(session);
    let r = session.apply_command(cmd, &listings);
    for f in &r.restore {
        disk.restore(f);
    }
    for f in &r.remove_folders {
        assert!(disk.folders[f].is_empty());
        disk.folders.remove(f);
    }
    if r.remove_scratch_root {
        disk.folders.clear();
        disk.scratch_root = false;
    }
    r.restore.len()
}

fn sorted(mut v: Vec<String>) -> Vec<String> {
    v.sort();
    v
}

#[test]
fn only_duplicate_groups_get_folders() {
    let files = s(&["a", "b", "c", "d", "e"]);
    let digests = vec![Some([1; 32]), Some([2; 32]), Some([1; 32]), Some([3; 32]), Some([3; 32])];
    let groups = group_file_paths_by_hash(&files, &digests);
    let plans = materialize(&groups);
    assert_eq!(plans.len(), 2);
    let mut members: Vec<Vec<String>> = plans.iter().map(|p| p.members.clone()).collect();
    members.sort();
    assert_eq!(members, vec![s(&["a", "c"]), s(&["d", "e"])]);
    assert!(plans.iter().all(|p| p.digest != [2; 32]));
    for p in &plans {
        assert_eq!(p.name, find_duplicates::folder_name::folder_name(&p.digest));
    }
}

#[test]
fn no_duplicates_no_review() {
    let (disk, session) = setup(&["a", "b"], vec![Some([1; 32]), Some([2; 32])]);
    assert!(session.folders.is_empty());
    assert_eq!(session.phase, Phase::Resolved);
    assert!(!disk.scratch_root);
}

#[test]
fn scenario_quit_restores_pair_and_removes_scratch_tree() {
    let (mut disk, mut session) = setup(&["A", "B", "C"], vec![Some([7; 32]), Some([7; 32]), Some([8; 32])]);
    assert_eq!(session.folders.len(), 1);
    assert_eq!(disk.target, s(&["C"]));
    assert_eq!(disk.folders[&session.folders[0]], s(&["A", "B"]));
    assert_eq!(session.phase, Phase::AwaitingCommand);
    run(&mut disk, &mut session, Command::Quit);
    assert_eq!(session.phase, Phase::Aborted);
    assert!(session.folders.is_empty());
    assert_eq!(sorted(disk.target.clone()), s(&["A", "B", "C"]));
    assert!(!disk.scratch_root);
    assert!(disk.folders.is_empty());
}

#[test]
fn quit_restores_every_remaining_file() {
    let (mut disk, mut session) = setup(
        &["a", "b", "c", "d", "e", "f"],
        vec![Some([1; 32]), Some([1; 32]), Some([2; 32]), Some([2; 32]), Some([2; 32]), None],
    );
    let three = session.folders.iter().find(|f| disk.folders[*f].len() == 3).unwrap().clone();
    disk.folders.get_mut(&three).unwrap().pop();
    let moved = run(&mut disk, &mut session, Command::Quit);
    assert_eq!(moved, 4);
    assert_eq!(sorted(disk.target.clone()), s(&["a", "b", "c", "d", "f"]));
    assert!(!disk.scratch_root);
}

#[test]
fn refresh_without_change_keeps_folders() {
    let (mut disk, mut session) = setup(
        &["a", "b", "c", "d"],
        vec![Some([1; 32]), Some([1; 32]), Some([2; 32]), Some([2; 32])],
    );
    let before = session.folders.clone();
    for _ in 0..3 {
        let moved = run(&mut disk, &mut session, Command::Refresh);
        assert_eq!(moved, 0);
        assert_eq!(session.folders, before);
        assert_eq!(session.phase, Phase::AwaitingCommand);
        assert!(disk.scratch_root);
    }
    assert!(disk.target.is_empty());
}

#[test]
fn refresh_restores_last_file_of_shrunk_folder() {
    let (mut disk, mut session) = setup(&["a", "b", "c"], vec![Some([1; 32]), Some([1; 32]), Some([1; 32])]);
    let folder = session.folders[0].clone();
    disk.folders.get_mut(&folder).unwrap().retain(|x| x == "b");
    let moved = run(&mut disk, &mut session, Command::Refresh);
    assert_eq!(moved, 1);
    assert_eq!(disk.target, s(&["b"]));
    assert!(!disk.folders.contains_key(&folder));
    assert_eq!(session.phase, Phase::Resolved);
    assert!(!disk.scratch_root);
}

#[test]
fn refresh_of_emptied_folder_removes_it() {
    let (mut disk, mut session) = setup(&["a", "b"], vec![Some([1; 32]), Some([1; 32])]);
    let folder = session.folders[0].clone();
    disk.folders.get_mut(&folder).unwrap().clear();
    let moved = run(&mut disk, &mut session, Command::Refresh);
    assert_eq!(moved, 0);
    assert!(disk.target.is_empty());
    assert_eq!(session.phase, Phase::Resolved);
}

#[test]
fn scenario_two_groups_one_shrinks_then_refresh_twice() {
    let (mut disk, mut session) = setup(
        &["p", "q", "x", "y", "z"],
        vec![Some([1; 32]), Some([1; 32]), Some([2; 32]), Some([2; 32]), Some([2; 32])],
    );
    assert_eq!(session.folders.len(), 2);
    let three = session.folders.iter().find(|f| disk.folders[*f].len() == 3).unwrap().clone();
    let two = session.folders.iter().find(|f| disk.folders[*f].len() == 2).unwrap().clone();
    disk.folders.get_mut(&three).unwrap().retain(|x| x == "y");

    run(&mut disk, &mut session, Command::Refresh);
    assert_eq!(disk.target, s(&["y"]));
    assert!(!disk.folders.contains_key(&three));
    assert_eq!(session.folders, vec![two.clone()]);
    assert_eq!(session.phase, Phase::AwaitingCommand);

    run(&mut disk, &mut session, Command::Refresh);
    assert_eq!(session.folders, vec![two.clone()]);
    assert_eq!(session.phase, Phase::AwaitingCommand);
    assert_eq!(disk.folders[&two], s(&["p", "q"]));
    assert!(disk.scratch_root);
}
