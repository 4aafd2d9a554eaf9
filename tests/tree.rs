use logtail::cache::{Action, CacheError, Event, FileSystem, NewEntry};
use logtail::entry::Entry;
use logtail::rule::{RuleError, Rules};
use logtail::tail::Tailer;
use logtail::watch::{RawEvent, Reconciler, WatchEvent, MASK_MOVED_FROM, MASK_MOVED_TO};

fn paths(fs: &FileSystem, id: usize) -> Vec<String> {
    fs.resolve_valid_paths(id)
}

#[test]
fn inserted_entries_resolve_under_their_parent() {
    let mut fs = FileSystem::new("/var/log".to_string(), 1);
    let d = fs.insert(0, "app".to_string(), NewEntry::Dir, 2).unwrap();
    let f = fs.insert(d, "x.log".to_string(), NewEntry::File { file_handle: 1 }, 3).unwrap();
    assert_eq!(paths(&fs, 0), vec!["/var/log".to_string()]);
    assert_eq!(paths(&fs, f), vec!["/var/log/app/x.log".to_string()]);
    assert_eq!(fs.find_child(d, &"x.log".to_string()), Some(f));
    assert_eq!(fs.lookup_wd(3), Some(f));
    assert_eq!(fs.lookup(&"/var/log/app".to_string()), Some(d));
    assert_eq!(fs.get(f).unwrap().name(), "x.log");
    assert_eq!(fs.get(f).unwrap().parent(), Some(d));
    assert_eq!(fs.get(f).unwrap().file_handle(), Some(1));
}

#[test]
fn insert_refusals() {
    let mut fs = FileSystem::new("/r".to_string(), 1);
    let f = fs.insert(0, "f".to_string(), NewEntry::File { file_handle: 0 }, 2).unwrap();
    assert_eq!(fs.insert(0, "f".to_string(), NewEntry::Dir, 5), Err(CacheError::NameTaken));
    assert_eq!(fs.insert(0, "g".to_string(), NewEntry::Dir, 2), Err(CacheError::WatchTaken));
    assert_eq!(fs.insert(f, "h".to_string(), NewEntry::Dir, 6), Err(CacheError::NotADirectory));
    assert_eq!(fs.insert(99, "h".to_string(), NewEntry::Dir, 6), Err(CacheError::NotADirectory));
    assert_eq!(fs.len(), 2);
}

#[test]
fn creates_and_deletes_leave_exactly_the_survivors() {
    let mut fs = FileSystem::new("/r".to_string(), 1);
    let a = fs.insert(0, "a".to_string(), NewEntry::File { file_handle: 0 }, 2).unwrap();
    let b = fs.insert(0, "b".to_string(), NewEntry::File { file_handle: 0 }, 3).unwrap();
    let c = fs.insert(0, "c".to_string(), NewEntry::File { file_handle: 0 }, 4).unwrap();
    assert_eq!(fs.remove(b), Ok(vec![3]));
    assert_eq!(paths(&fs, a), vec!["/r/a".to_string()]);
    assert!(paths(&fs, b).is_empty());
    assert_eq!(paths(&fs, c), vec!["/r/c".to_string()]);
    assert_eq!(fs.lookup(&"/r/b".to_string()), None);
    assert_eq!(fs.remove(b), Err(CacheError::NotFound));
    assert_eq!(fs.remove(0), Err(CacheError::Root));
}

#[test]
fn removing_a_directory_cascades() {
    let mut fs = FileSystem::new("/r".to_string(), 1);
    let d = fs.insert(0, "d".to_string(), NewEntry::Dir, 2).unwrap();
    let e = fs.insert(d, "e".to_string(), NewEntry::Dir, 3).unwrap();
    let f = fs.insert(e, "f".to_string(), NewEntry::File { file_handle: 0 }, 4).unwrap();
    let g = fs.insert(0, "g".to_string(), NewEntry::File { file_handle: 0 }, 5).unwrap();
    let mut gone = fs.remove(d).unwrap();
    gone.sort();
    assert_eq!(gone, vec![2, 3, 4]);
    assert!(fs.get(d).is_none());
    assert!(fs.get(e).is_none());
    assert!(fs.get(f).is_none());
    assert_eq!(fs.lookup_wd(4), None);
    assert_eq!(paths(&fs, g), vec!["/r/g".to_string()]);
    assert_eq!(fs.find_child(0, &"d".to_string()), None);
}

#[test]
fn rename_keeps_watch_and_offset() {
    let mut fs = FileSystem::new("/var/log".to_string(), 1);
    let a = fs.insert(0, "a.log".to_string(), NewEntry::File { file_handle: 8 }, 2).unwrap();
    fs.set_offset(a, 42);
    assert_eq!(fs.rename(a, 0, "b.log".to_string()), Ok(()));
    assert_eq!(paths(&fs, a), vec!["/var/log/b.log".to_string()]);
    assert_eq!(fs.offset(a), Some(42));
    assert_eq!(fs.lookup_wd(2), Some(a));
    assert_eq!(fs.find_child(0, &"a.log".to_string()), None);
    assert_eq!(fs.find_child(0, &"b.log".to_string()), Some(a));
}

#[test]
fn rename_refusals() {
    let mut fs = FileSystem::new("/r".to_string(), 1);
    let d = fs.insert(0, "d".to_string(), NewEntry::Dir, 2).unwrap();
    let e = fs.insert(d, "e".to_string(), NewEntry::Dir, 3).unwrap();
    let f = fs.insert(0, "f".to_string(), NewEntry::File { file_handle: 0 }, 4).unwrap();
    assert_eq!(fs.rename(d, e, "x".to_string()), Err(CacheError::Cycle));
    assert_eq!(fs.rename(d, d, "x".to_string()), Err(CacheError::Cycle));
    assert_eq!(fs.rename(0, d, "x".to_string()), Err(CacheError::Root));
    assert_eq!(fs.rename(f, 0, "d".to_string()), Err(CacheError::NameTaken));
    assert_eq!(fs.rename(d, f, "x".to_string()), Err(CacheError::NotADirectory));
    assert_eq!(fs.rename(77, 0, "x".to_string()), Err(CacheError::NotFound));
    assert_eq!(fs.rename(f, 0, "f".to_string()), Ok(()));
    assert_eq!(fs.rename(f, e, "g".to_string()), Ok(()));
    assert_eq!(paths(&fs, f), vec!["/r/d/e/g".to_string()]);
}

#[test]
fn rename_in_place_through_the_whole_pipeline() {
    let mut fs = FileSystem::new("/var/log".to_string(), 1);
    let a = fs.insert(0, "a.log".to_string(), NewEntry::File { file_handle: 8 }, 2).unwrap();
    let tailer = Tailer::new(vec!["/var/log".to_string()], Rules::new());
    tailer.process(&mut fs, Event::Write(a), 6, &b"hello\n".to_vec());
    assert_eq!(fs.offset(a), Some(6));

    let mut rec = Reconciler::new();
    let from = RawEvent { wd: 1, mask: MASK_MOVED_FROM, cookie: 5, name: "a.log".to_string() };
    let to = RawEvent { wd: 1, mask: MASK_MOVED_TO, cookie: 5, name: "b.log".to_string() };
    assert_eq!(rec.on_event(from, 10), None);
    let mv = rec.on_event(to, 11).unwrap();
    let rules = Rules::new();
    match fs.action_for(&rules, &mv) {
        Action::Rename { entry, new_parent, new_name } => {
            assert_eq!((entry, new_parent, new_name.as_str()), (a, 0, "b.log"));
            assert_eq!(fs.rename(entry, new_parent, new_name), Ok(()));
        }
        other => panic!("unexpected action {:?}", other),
    }
    assert_eq!(fs.offset(a), Some(6));
    let out = tailer.process(&mut fs, Event::Write(a), 12, &b"world\n".to_vec());
    assert_eq!(out.len(), 1);
    assert_eq!(out[0][0].file, "/var/log/b.log");
    assert_eq!(out[0][0].line, "world");
    assert_eq!(fs.offset(a), Some(12));
}

#[test]
fn actions_for_watch_events() {
    let mut fs = FileSystem::new("/var/log".to_string(), 1);
    let a = fs.insert(0, "a.log".to_string(), NewEntry::File { file_handle: 0 }, 2).unwrap();
    let mut rules = Rules::new();
    assert_eq!(rules.add_exclusion(&"*.gz".to_string()), Ok(()));
    let create = WatchEvent::Create { wd: 1, name: "new.log".to_string() };
    assert_eq!(
        fs.action_for(&rules, &create),
        Action::Create { parent: 0, name: "new.log".to_string(), path: "/var/log/new.log".to_string() }
    );
    let excluded = WatchEvent::Create { wd: 1, name: "old.gz".to_string() };
    assert_eq!(fs.action_for(&rules, &excluded), Action::Ignore);
    let existing = WatchEvent::Create { wd: 1, name: "a.log".to_string() };
    assert_eq!(fs.action_for(&rules, &existing), Action::Ignore);
    assert_eq!(fs.action_for(&rules, &WatchEvent::Modify { wd: 2 }), Action::Write(a));
    assert_eq!(fs.action_for(&rules, &WatchEvent::Modify { wd: 9 }), Action::Ignore);
    let del = WatchEvent::Delete { wd: 1, name: "a.log".to_string() };
    assert_eq!(fs.action_for(&rules, &del), Action::Delete(a));
    let gone = WatchEvent::MovedFrom { wd: 1, name: "a.log".to_string(), cookie: 3 };
    assert_eq!(fs.action_for(&rules, &gone), Action::Delete(a));
    let out = WatchEvent::Move {
        from_wd: 1,
        from_name: "a.log".to_string(),
        to_wd: 1,
        to_name: "a.log.gz".to_string(),
    };
    assert_eq!(fs.action_for(&rules, &out), Action::Delete(a));
    assert_eq!(fs.action_for(&rules, &WatchEvent::Overflow), Action::Rescan);
}

#[test]
fn rules_match_globs() {
    let mut rules = Rules::new();
    assert!(rules.passes(&"/anything".to_string()));
    assert_eq!(rules.add_inclusion(&"/var/log/*.log".to_string()), Ok(()));
    assert_eq!(rules.add_inclusion(&"".to_string()), Err(RuleError::Empty));
    assert_eq!(rules.add_exclusion(&"*secret?.log".to_string()), Ok(()));
    assert!(rules.passes(&"/var/log/app.log".to_string()));
    assert!(rules.passes(&"/var/log/a/b.log".to_string()));
    assert!(!rules.passes(&"/var/log/app.txt".to_string()));
    assert!(!rules.passes(&"/var/log/secret1.log".to_string()));
    assert!(rules.passes(&"/var/log/secret.log".to_string()));
}

#[test]
fn entry_accessors_follow_the_variant() {
    let mut f: Entry<u64> =
        Entry::File { name: "a".to_string(), parent: 0, wd: 3, data: 10, file_handle: 4 };
    assert_eq!(f.name(), "a");
    assert_eq!(f.parent(), Some(0));
    assert_eq!(f.watch_descriptor(), 3);
    assert_eq!(f.file_handle(), Some(4));
    assert!(f.link().is_none());
    assert!(f.children_mut().is_none());
    *f.data_mut().unwrap() += 5;
    f.set_name("b".to_string());
    f.set_parent(7);
    assert_eq!(f.name(), "b");
    assert_eq!(f.parent(), Some(7));
    assert_eq!(f.data_mut().copied(), Some(15));

    let mut d: Entry<u64> =
        Entry::Dir { name: "/r".to_string(), parent: None, children: vec![1], wd: 1 };
    assert_eq!(d.parent(), None);
    d.children_mut().unwrap().push(2);
    d.add_child(3);
    d.remove_child_at(0);
    assert_eq!(d.children_mut().cloned(), Some(vec![2, 3]));
    assert!(d.data_mut().is_none());
    assert!(d.file_handle().is_none());
    d.set_parent(5);
    assert_eq!(d.parent(), Some(5));

    let s: Entry<u64> = Entry::Symlink {
        name: "l".to_string(),
        parent: 0,
        link: "/t".to_string(),
        wd: 9,
        rules: Rules::new(),
    };
    assert_eq!(s.link().map(|l| l.as_str()), Some("/t"));
    assert_eq!(s.watch_descriptor(), 9);
}

#[test]
fn read_plan_starts_where_the_event_reads() {
    let mut fs = FileSystem::new("/r".to_string(), 1);
    let a = fs.insert(0, "a".to_string(), NewEntry::File { file_handle: 0 }, 2).unwrap();
    let d = fs.insert(0, "d".to_string(), NewEntry::Dir, 3).unwrap();
    fs.set_offset(a, 30);
    assert_eq!(fs.read_plan(Event::Initialize(a)), Some((a, None)));
    assert_eq!(fs.read_plan(Event::New(a)), Some((a, Some(0))));
    assert_eq!(fs.read_plan(Event::Write(a)), Some((a, Some(30))));
    assert_eq!(fs.read_plan(Event::Delete(a)), Some((a, Some(30))));
    assert_eq!(fs.read_plan(Event::Write(d)), None);
}
