//! Incremental reading of a file into newline-terminated lines.
use vstd::prelude::*;
use vstd::slice::slice_subrange;
use crate::cache::{
    offset_of, paths_of, read_target, resolve, wf, with_offset, Event, FileSystem,
};
use crate::rule::Rules;

verus! {

/// Files shorter than this are read from their first byte when first seen.
pub const SHORT_FILE_THRESHOLD: u64 = 8192;

/// The byte that ends a line.
pub const NEWLINE: u8 = 10;

/// What `String::from_utf8_lossy` makes of a byte sequence.
pub uninterp spec fn utf8_lossy(b: Seq<u8>) -> Seq<char>;

/// Relies on `String::from_utf8_lossy`: a function of the bytes alone, where
/// invalid sequences become U+FFFD.
#[verifier::external_body]
fn decode_lossy(b: &[u8]) -> (r: String)
    ensures
        r@ == utf8_lossy(b@),
{
    String::from_utf8_lossy(b).into_owned()
}

/// One line of text together with the logical path it was read under.
#[derive(Debug, Clone, PartialEq, Eq)]
pub struct Line {
    pub line: String,
    pub file: String,
}

impl View for Line {
    type V = (Seq<char>, Seq<char>);

    open spec fn view(&self) -> (Seq<char>, Seq<char>) {
        (self.line@, self.file@)
    }
}

pub open spec fn strings_view(s: Seq<String>) -> Seq<Seq<char>> {
    s.map_values(|x: String| x@)
}

pub open spec fn lines_view(s: Seq<Line>) -> Seq<(Seq<char>, Seq<char>)> {
    s.map_values(|x: Line| x@)
}

pub open spec fn groups_view(s: Seq<Vec<Line>>) -> Seq<Seq<(Seq<char>, Seq<char>)>> {
    s.map_values(|g: Vec<Line>| lines_view(g@))
}

/// The offset a file of length `len` is given when it is first seen, or after
/// it shrank: its start when short, its end otherwise.
pub open spec fn start_offset(len: u64) -> u64 {
    if len < SHORT_FILE_THRESHOLD {
        0
    } else {
        len
    }
}

/// Splits bytes into the complete lines they hold, each without its newline,
/// and the unterminated fragment that follows the last newline.
pub open spec fn scan(s: Seq<u8>) -> (Seq<Seq<u8>>, Seq<u8>)
    decreases s.len(),
{
    if s.len() == 0 {
        (seq![], seq![])
    } else {
        let (ls, cur) = scan(s.drop_last());
        if s.last() == NEWLINE {
            (ls.push(cur), seq![])
        } else {
            (ls, cur.push(s.last()))
        }
    }
}

pub open spec fn complete_lines(s: Seq<u8>) -> Seq<Seq<u8>> {
    scan(s).0
}

/// Number of bytes taken by the complete lines, newlines included.
pub open spec fn consumed(s: Seq<u8>) -> int {
    s.len() - scan(s).1.len()
}

/// One group per line: the decoded line once for each logical path.
pub open spec fn fan_out(text: Seq<char>, paths: Seq<Seq<char>>) -> Seq<(Seq<char>, Seq<char>)> {
    paths.map_values(|p: Seq<char>| (text, p))
}

pub open spec fn batch(lines: Seq<Seq<u8>>, paths: Seq<Seq<char>>) -> Seq<
    Seq<(Seq<char>, Seq<char>)>,
> {
    lines.map_values(|l: Seq<u8>| fan_out(utf8_lossy(l), paths))
}

/// Offset and lines that one read produces, from the stored offset, the
/// current length and the bytes from the offset to the end of the file.
pub open spec fn tail_result(offset: u64, len: u64, chunk: Seq<u8>) -> (int, Seq<Seq<u8>>) {
    if offset == len {
        (offset as int, seq![])
    } else if offset > len {
        (start_offset(len) as int, seq![])
    } else {
        (offset + consumed(chunk), complete_lines(chunk))
    }
}

/// The offset given to a file that was already there at startup.
pub fn initial_offset(len: u64) -> (r: u64)
    ensures
        r == start_offset(len),
{
    if len < SHORT_FILE_THRESHOLD {
        0
    } else {
        len
    }
}

fn make_group(text: &String, paths: &Vec<String>) -> (r: Vec<Line>)
    ensures
        lines_view(r@) == fan_out(text@, strings_view(paths@)),
{
    let mut r: Vec<Line> = Vec::new();
    let mut i: usize = 0;
    while i < paths.len()
        invariant
            i <= paths.len(),
            lines_view(r@) == fan_out(text@, strings_view(paths@.take(i as int))),
        decreases paths.len() - i,
    {
        let ghost old_r = r@;
        let item = Line { line: text.clone(), file: paths[i].clone() };
        r.push(item);
        i += 1;
        assert(lines_view(r@) =~= lines_view(old_r).push(item@));
        assert(strings_view(paths@.take(i as int)) =~= strings_view(paths@.take(i - 1)).push(
            paths@[i - 1]@,
        ));
        assert(lines_view(r@) =~= fan_out(text@, strings_view(paths@.take(i as int))));
    }
    assert(paths@.take(i as int) =~= paths@);
    r
}

/// Reads the complete lines of `chunk`, the bytes from `*offset` to the end of
/// a file whose length is `len`, and moves `*offset` past them. A shrunk file
/// has its offset reset and yields nothing; an unterminated fragment is left
/// for a later read. Each line is decoded and repeated once per path.
pub fn tail(offset: &mut u64, len: u64, chunk: &Vec<u8>, paths: &Vec<String>) -> (r: Option<
    Vec<Vec<Line>>,
>)
    requires
        *old(offset) < len ==> *old(offset) + chunk@.len() <= u64::MAX,
    ensures
        *final(offset) == tail_result(*old(offset), len, chunk@).0,
        match r {
            None => tail_result(*old(offset), len, chunk@).1.len() == 0,
            Some(g) => tail_result(*old(offset), len, chunk@).1.len() > 0 && groups_view(g@)
                == batch(tail_result(*old(offset), len, chunk@).1, strings_view(paths@)),
        },
{
    if *offset == len {
        return None;
    }
    if *offset > len {
        *offset = initial_offset(len);
        return None;
    }
    let ghost pv = strings_view(paths@);
    let mut groups: Vec<Vec<Line>> = Vec::new();
    let mut start: usize = 0;
    let mut j: usize = 0;
    while j < chunk.len()
        invariant
            start <= j <= chunk@.len(),
            scan(chunk@.take(j as int)).1 == chunk@.subrange(start as int, j as int),
            groups_view(groups@) == batch(scan(chunk@.take(j as int)).0, pv),
            pv == strings_view(paths@),
        decreases chunk.len() - j,
    {
        let ghost prev = chunk@.take(j as int);
        let ghost old_groups = groups@;
        if chunk[j] == NEWLINE {
            let text = decode_lossy(slice_subrange(chunk.as_slice(), start, j));
            let group = make_group(&text, paths);
            groups.push(group);
            start = j + 1;
            assert(groups_view(groups@) =~= groups_view(old_groups).push(lines_view(group@)));
        }
        j += 1;
        assert(chunk@.take(j as int).drop_last() =~= prev);
        assert(scan(chunk@.take(j as int)).1 =~= chunk@.subrange(start as int, j as int));
        assert(groups_view(groups@) =~= batch(scan(chunk@.take(j as int)).0, pv));
    }
    assert(chunk@.take(j as int) =~= chunk@);
    *offset = *offset + start as u64;
    if groups.len() == 0 {
        None
    } else {
        Some(groups)
    }
}
/// Why a tailer could not start.
#[derive(Debug, Clone, Copy, PartialEq, Eq)]
pub enum StartError {
    /// The directories to watch were already taken.
    MissingWatchedDirs,
    /// The rules were already taken.
    MissingRules,
}

/// Tails the files of the watched directories: holds what it was configured
/// with until processing begins.
pub struct Tailer {
    watched_dirs: Option<Vec<String>>,
    rules: Option<Rules>,
}

impl Tailer {
    /// The directories still waiting to be watched.
    pub closed spec fn pending_dirs(&self) -> Option<Seq<String>> {
        match self.watched_dirs {
            Some(d) => Some(d@),
            None => None,
        }
    }

    /// The rules still waiting to be applied.
    pub closed spec fn pending_rules(&self) -> Option<Rules> {
        self.rules
    }

    /// A tailer for `watched_dirs`, admitting paths by `rules`.
    pub fn new(watched_dirs: Vec<String>, rules: Rules) -> (r: Tailer)
        ensures
            r.pending_dirs() == Some(watched_dirs@),
            r.pending_rules() == Some(rules),
    {
        Tailer { watched_dirs: Some(watched_dirs), rules: Some(rules) }
    }

    /// Hands out the configuration to start processing with; a tailer starts
    /// once only.
    pub fn begin_processing(&mut self) -> (r: Result<(Vec<String>, Rules), StartError>)
        ensures
            old(self).pending_dirs() is None ==> r == Err::<(Vec<String>, Rules), StartError>(
                StartError::MissingWatchedDirs,
            ),
            old(self).pending_dirs() is Some && old(self).pending_rules() is None ==> r == Err::<
                (Vec<String>, Rules),
                StartError,
            >(StartError::MissingRules),
            old(self).pending_dirs() is Some && old(self).pending_rules() is Some ==> r is Ok
                && r->Ok_0.0@ == old(self).pending_dirs().unwrap() && r->Ok_0.1 == old(
                self,
            ).pending_rules().unwrap(),
            final(self).pending_dirs() is None,
            final(self).pending_rules() is None,
    {
        let dirs = self.watched_dirs.take();
        let rules = self.rules.take();
        match dirs {
            None => Err(StartError::MissingWatchedDirs),
            Some(d) => match rules {
                None => Err(StartError::MissingRules),
                Some(rl) => Ok((d, rl)),
            },
        }
    }

    /// Applies one event of the tree. `len` is the current length of the file
    /// that `fs.read_target(event)` names, and `chunk` its bytes from the
    /// offset that the event reads from (the stored one, or 0 for a new file)
    /// to its end. A file seen at startup gets its first offset; a new file
    /// is read from its start; a written or deleted one from its offset. The
    /// lines come once per path of the entry the event names.
    pub fn process(&self, fs: &mut FileSystem, event: Event, len: u64, chunk: &Vec<u8>) -> (r: Vec<
        Vec<Line>,
    >)
        requires
            wf(old(fs)@),
            len + chunk@.len() <= u64::MAX,
        ensures
            wf(final(fs)@),
            forall|i: int| #[trigger] resolve(final(fs)@, i) == resolve(old(fs)@, i),
            read_target(old(fs)@, event) is None ==> final(fs)@ == old(fs)@ && r@.len() == 0,
            read_target(old(fs)@, event) matches Some(t) ==> match event {
                Event::Initialize(_) => with_offset(old(fs)@, final(fs)@, t as int, start_offset(len))
                    && r@.len() == 0,
                Event::New(id) => {
                    let res = tail_result(0, len, chunk@);
                    &&& with_offset(old(fs)@, final(fs)@, t as int, res.0 as u64)
                    &&& groups_view(r@) == batch(res.1, paths_of(old(fs)@, id as int))
                },
                Event::Write(id) | Event::Delete(id) => {
                    let res = tail_result(offset_of(old(fs)@, t as int), len, chunk@);
                    &&& with_offset(old(fs)@, final(fs)@, t as int, res.0 as u64)
                    &&& groups_view(r@) == batch(res.1, paths_of(old(fs)@, id as int))
                },
            },
    {
        let target = match fs.read_target(event) {
            Some(t) => t,
            None => {
                return Vec::new();
            },
        };
        let (id, start) = match event {
            Event::Initialize(_) => {
                fs.set_offset(target, initial_offset(len));
                return Vec::new();
            },
            Event::New(id) => (id, 0),
            Event::Write(id) => (id, fs.offset(target).unwrap()),
            Event::Delete(id) => (id, fs.offset(target).unwrap()),
        };
        let paths = fs.resolve_valid_paths(id);
        assert(strings_view(paths@) =~= paths_of(fs@, id as int));
        let mut offset = start;
        let found = tail(&mut offset, len, chunk, &paths);
        fs.set_offset(target, offset);
        match found {
            Some(g) => g,
            None => {
                let r: Vec<Vec<Line>> = Vec::new();
                assert(groups_view(r@) =~= batch(seq![], strings_view(paths@)));
                r
            },
        }
    }
}

pub open spec fn has_newline(s: Seq<u8>) -> bool {
    exists|k: int| 0 <= k < s.len() && s[k] == NEWLINE
}

/// Bytes without a newline hold no complete line: all of them are the fragment.
pub proof fn lemma_scan_without_newline(s: Seq<u8>)
    requires
        !has_newline(s),
    ensures
        scan(s) == (Seq::<Seq<u8>>::empty(), s),
    decreases s.len(),
{
    if s.len() > 0 {
        assert(!has_newline(s.drop_last())) by {
            if has_newline(s.drop_last()) {
                let k = choose|k: int| 0 <= k < s.drop_last().len() && s.drop_last()[k] == NEWLINE;
                assert(s[k] == NEWLINE);
            }
        }
        lemma_scan_without_newline(s.drop_last());
        assert(s.last() != NEWLINE) by {
            if s.last() == NEWLINE {
                assert(s[s.len() - 1] == NEWLINE);
            }
        }
        assert(s.drop_last().push(s.last()) =~= s);
    }
}

/// The fragment is what follows the consumed bytes, and holds no newline.
pub proof fn lemma_fragment_is_rest(s: Seq<u8>)
    ensures
        0 <= consumed(s) <= s.len(),
        s.skip(consumed(s)) == scan(s).1,
        !has_newline(scan(s).1),
    decreases s.len(),
{
    if s.len() > 0 {
        let t = s.drop_last();
        lemma_fragment_is_rest(t);
        if s.last() != NEWLINE {
            assert(s.skip(consumed(s)) =~= t.skip(consumed(t)).push(s.last()));
            assert(!has_newline(scan(s).1)) by {
                if has_newline(scan(s).1) {
                    let k = choose|k: int|
                        0 <= k < scan(s).1.len() && scan(s).1[k] == NEWLINE;
                    if k < scan(t).1.len() {
                        assert(scan(t).1[k] == NEWLINE);
                    }
                }
            }
        } else {
            assert(s.skip(consumed(s)) =~= Seq::<u8>::empty());
        }
    } else {
        assert(s.skip(0) =~= s);
    }
}

/// A read that ends in an unterminated fragment neither moves the offset nor
/// yields a line for it.
pub proof fn lemma_partial_line_safe(offset: u64, len: u64, chunk: Seq<u8>)
    requires
        offset < len,
        !has_newline(chunk),
    ensures
        tail_result(offset, len, chunk) == (offset as int, Seq::<Seq<u8>>::empty()),
{
    lemma_scan_without_newline(chunk);
}

/// Reading the same unchanged file twice: the second read yields no line and
/// leaves the offset where the first one put it.
pub proof fn lemma_second_read_is_empty(offset: u64, len: u64, chunk: Seq<u8>)
    requires
        offset <= len,
        chunk.len() == len - offset,
    ensures
        ({
            let next = tail_result(offset, len, chunk).0;
            &&& offset <= next <= len
            &&& tail_result(next as u64, len, chunk.skip(next - offset)) == (
                next,
                Seq::<Seq<u8>>::empty(),
            )
        }),
{
    if offset < len {
        lemma_fragment_is_rest(chunk);
        let next = offset + consumed(chunk);
        if next < len {
            lemma_partial_line_safe(next as u64, len, chunk.skip(next - offset));
        }
    } else {
        assert(chunk.skip(0) =~= chunk);
    }
}

} // verus!
