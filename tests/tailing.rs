use logtail::cache::{Event, FileSystem, NewEntry};
use logtail::rule::Rules;
use logtail::tail::{initial_offset, tail, Line, StartError, Tailer, SHORT_FILE_THRESHOLD};

fn line(text: &str, file: &str) -> Line {
    Line { line: text.to_string(), file: file.to_string() }
}

fn one_file() -> (FileSystem, usize) {
    let mut fs = FileSystem::new("/var/log".to_string(), 1);
    let id = fs.insert(0, "a.log".to_string(), NewEntry::File { file_handle: 7 }, 2).unwrap();
    (fs, id)
}

#[test]
fn short_files_start_at_zero() {
    assert_eq!(initial_offset(0), 0);
    assert_eq!(initial_offset(100), 0);
    assert_eq!(initial_offset(SHORT_FILE_THRESHOLD - 1), 0);
    assert_eq!(initial_offset(SHORT_FILE_THRESHOLD), 8192);
}

#[test]
fn large_file_at_startup_starts_at_end() {
    assert_eq!(initial_offset(2_000_000), 2_000_000);
    let (mut fs, id) = one_file();
    let tailer = Tailer::new(vec!["/var/log".to_string()], Rules::new());
    let out = tailer.process(&mut fs, Event::Initialize(id), 2_000_000, &Vec::new());
    assert!(out.is_empty());
    assert_eq!(fs.offset(id), Some(2_000_000));
}

#[test]
fn unchanged_length_reads_nothing() {
    let mut offset: u64 = 40;
    let r = tail(&mut offset, 40, &b"ignored\n".to_vec(), &vec!["p".to_string()]);
    assert!(r.is_none());
    assert_eq!(offset, 40);
}

#[test]
fn truncation_to_short_length_resets_to_zero() {
    let mut offset: u64 = 10_000;
    let r = tail(&mut offset, 500, &b"abc\n".to_vec(), &vec!["p".to_string()]);
    assert!(r.is_none());
    assert_eq!(offset, 0);
}

#[test]
fn truncation_to_long_length_resets_to_length() {
    let mut offset: u64 = 20_000;
    let r = tail(&mut offset, 9_000, &Vec::new(), &vec!["p".to_string()]);
    assert!(r.is_none());
    assert_eq!(offset, 9_000);
}

#[test]
fn fragment_without_newline_is_kept_back() {
    let mut offset: u64 = 0;
    let chunk = vec![b'x'; 50];
    let r = tail(&mut offset, 50, &chunk, &vec!["p".to_string()]);
    assert!(r.is_none());
    assert_eq!(offset, 0);
}

#[test]
fn complete_lines_advance_past_newline() {
    let mut offset: u64 = 3;
    let chunk = b"one\ntwo\nthr".to_vec();
    let r = tail(&mut offset, 14, &chunk, &vec!["/d/f".to_string()]).unwrap();
    assert_eq!(r, vec![vec![line("one", "/d/f")], vec![line("two", "/d/f")]]);
    assert_eq!(offset, 11);
}

#[test]
fn lines_fan_out_over_paths() {
    let mut offset: u64 = 0;
    let paths = vec!["/a".to_string(), "/b".to_string()];
    let r = tail(&mut offset, 3, &b"hi\n".to_vec(), &paths).unwrap();
    assert_eq!(r, vec![vec![line("hi", "/a"), line("hi", "/b")]]);
    assert_eq!(offset, 3);
}

#[test]
fn empty_line_is_a_line() {
    let mut offset: u64 = 0;
    let r = tail(&mut offset, 1, &b"\n".to_vec(), &vec!["/a".to_string()]).unwrap();
    assert_eq!(r, vec![vec![line("", "/a")]]);
    assert_eq!(offset, 1);
}

#[test]
fn invalid_utf8_is_replaced() {
    let mut offset: u64 = 0;
    let r = tail(&mut offset, 4, &vec![b'a', 0xff, b'b', b'\n'], &vec!["/a".to_string()]).unwrap();
    assert_eq!(r, vec![vec![line("a\u{fffd}b", "/a")]]);
    assert_eq!(offset, 4);
}

#[test]
fn second_identical_write_yields_nothing() {
    let (mut fs, id) = one_file();
    let tailer = Tailer::new(vec!["/var/log".to_string()], Rules::new());
    let content = b"first\nsecond\npart".to_vec();
    let out = tailer.process(&mut fs, Event::Write(id), 17, &content);
    assert_eq!(out.len(), 2);
    assert_eq!(fs.offset(id), Some(13));
    let rest = content[13..].to_vec();
    let again = tailer.process(&mut fs, Event::Write(id), 17, &rest);
    assert!(again.is_empty());
    assert_eq!(fs.offset(id), Some(13));
}

#[test]
fn new_file_written_in_two_steps() {
    let (mut fs, id) = one_file();
    let tailer = Tailer::new(vec!["/var/log".to_string()], Rules::new());
    let out = tailer.process(&mut fs, Event::New(id), 0, &Vec::new());
    assert!(out.is_empty());
    assert_eq!(fs.offset(id), Some(0));

    let first = vec![b'a'; 50];
    let out = tailer.process(&mut fs, Event::Write(id), 50, &first);
    assert!(out.is_empty());
    assert_eq!(fs.offset(id), Some(0));

    let mut whole = first.clone();
    whole.extend(vec![b'b'; 49]);
    whole.push(b'\n');
    let out = tailer.process(&mut fs, Event::Write(id), 100, &whole);
    let expected = format!("{}{}", "a".repeat(50), "b".repeat(49));
    assert_eq!(out, vec![vec![line(&expected, "/var/log/a.log")]]);
    assert_eq!(fs.offset(id), Some(100));
}

#[test]
fn new_file_reads_from_start() {
    let (mut fs, id) = one_file();
    fs.set_offset(id, 5);
    let tailer = Tailer::new(vec!["/var/log".to_string()], Rules::new());
    let out = tailer.process(&mut fs, Event::New(id), 4, &b"new\n".to_vec());
    assert_eq!(out, vec![vec![line("new", "/var/log/a.log")]]);
    assert_eq!(fs.offset(id), Some(4));
}

#[test]
fn deleted_symlink_reads_its_target_under_its_own_name() {
    let mut fs = FileSystem::new("/var/log".to_string(), 1);
    let target = fs.insert(0, "real.log".to_string(), NewEntry::File { file_handle: 3 }, 2).unwrap();
    let link = fs
        .insert(0, "link.log".to_string(), NewEntry::Symlink { link: "/var/log/real.log".to_string(), rules: Rules::new() }, 3)
        .unwrap();
    assert_eq!(fs.read_target(Event::Delete(link)), Some(target));
    let tailer = Tailer::new(vec!["/var/log".to_string()], Rules::new());
    let out = tailer.process(&mut fs, Event::Delete(link), 6, &b"last\n\n".to_vec());
    assert_eq!(
        out,
        vec![vec![line("last", "/var/log/link.log")], vec![line("", "/var/log/link.log")]]
    );
    assert_eq!(fs.offset(target), Some(6));
}

#[test]
fn dangling_symlink_has_nothing_to_read() {
    let mut fs = FileSystem::new("/var/log".to_string(), 1);
    let link = fs
        .insert(0, "link.log".to_string(), NewEntry::Symlink { link: "/elsewhere".to_string(), rules: Rules::new() }, 3)
        .unwrap();
    assert_eq!(fs.read_target(Event::Delete(link)), None);
    let tailer = Tailer::new(vec!["/var/log".to_string()], Rules::new());
    assert!(tailer.process(&mut fs, Event::Delete(link), 10, &Vec::new()).is_empty());
}

#[test]
fn directories_are_not_read() {
    let mut fs = FileSystem::new("/var/log".to_string(), 1);
    let d = fs.insert(0, "sub".to_string(), NewEntry::Dir, 2).unwrap();
    assert_eq!(fs.read_target(Event::Write(d)), None);
    assert_eq!(fs.read_target(Event::Initialize(d)), None);
}

#[test]
fn tailer_starts_once() {
    let mut t = Tailer::new(vec!["/var/log".to_string()], Rules::new());
    let (dirs, _rules) = t.begin_processing().unwrap();
    assert_eq!(dirs, vec!["/var/log".to_string()]);
    assert_eq!(t.begin_processing().err(), Some(StartError::MissingWatchedDirs));
}
