//! Which paths are admitted into the tree: glob patterns to include and to
//! exclude.
use vstd::prelude::*;
use vstd::string::StrSliceExecFns;

verus! {

/// Whether `s` matches the glob pattern `p`: `*` stands for any run of
/// characters, `?` for any one character, and every other character for
/// itself.
pub open spec fn glob(p: Seq<char>, s: Seq<char>) -> bool
    decreases p.len() + s.len(),
{
    if p.len() == 0 {
        s.len() == 0
    } else if p[0] == '*' {
        glob(p.skip(1), s) || (s.len() > 0 && glob(p, s.skip(1)))
    } else if s.len() == 0 {
        false
    } else if p[0] == '?' || p[0] == s[0] {
        glob(p.skip(1), s.skip(1))
    } else {
        false
    }
}

/// Some pattern of `ps` matches `s`.
pub open spec fn any_match(ps: Seq<Seq<char>>, s: Seq<char>) -> bool {
    exists|i: int| 0 <= i < ps.len() && glob(ps[i], s)
}

/// A path is admitted when no inclusion pattern is set or one of them
/// matches, and no exclusion pattern matches.
pub open spec fn admits(inclusion: Seq<Seq<char>>, exclusion: Seq<Seq<char>>, s: Seq<char>) -> bool {
    (inclusion.len() == 0 || any_match(inclusion, s)) && !any_match(exclusion, s)
}

/// Why a pattern was refused.
#[derive(Debug, Clone, Copy, PartialEq, Eq)]
pub enum RuleError {
    /// The pattern is empty.
    Empty,
}

/// Inclusion and exclusion patterns, each kept as its characters.
#[derive(Debug, Clone)]
pub struct Rules {
    inclusion: Vec<Vec<char>>,
    exclusion: Vec<Vec<char>>,
}

pub open spec fn patterns_view(v: Seq<Vec<char>>) -> Seq<Seq<char>> {
    v.map_values(|p: Vec<char>| p@)
}

impl View for Rules {
    type V = (Seq<Seq<char>>, Seq<Seq<char>>);

    closed spec fn view(&self) -> (Seq<Seq<char>>, Seq<Seq<char>>) {
        (patterns_view(self.inclusion@), patterns_view(self.exclusion@))
    }
}

fn chars_of(s: &String) -> (r: Vec<char>)
    ensures
        r@ == s@,
{
    let t = s.as_str();
    let n = t.unicode_len();
    let mut r: Vec<char> = Vec::new();
    let mut i: usize = 0;
    while i < n
        invariant
            n == t@.len(),
            t@ == s@,
            i <= n,
            r@ == t@.take(i as int),
        decreases n - i,
    {
        r.push(t.get_char(i));
        i += 1;
        assert(r@ =~= t@.take(i as int));
    }
    assert(t@.take(n as int) =~= t@);
    r
}

fn glob_from(p: &Vec<char>, pi: usize, s: &Vec<char>, si: usize) -> (r: bool)
    requires
        pi <= p@.len(),
        si <= s@.len(),
    ensures
        r == glob(p@.skip(pi as int), s@.skip(si as int)),
    decreases p@.len() - pi + s@.len() - si,
{
    let ghost ps = p@.skip(pi as int);
    let ghost ss = s@.skip(si as int);
    if pi == p.len() {
        return si == s.len();
    }
    assert(ps[0] == p@[pi as int]);
    assert(ps.skip(1) =~= p@.skip(pi + 1));
    if si < s.len() {
        assert(ss[0] == s@[si as int]);
        assert(ss.skip(1) =~= s@.skip(si + 1));
    }
    if p[pi] == '*' {
        if glob_from(p, pi + 1, s, si) {
            return true;
        }
        si < s.len() && glob_from(p, pi, s, si + 1)
    } else if si == s.len() {
        false
    } else if p[pi] == '?' || p[pi] == s[si] {
        glob_from(p, pi + 1, s, si + 1)
    } else {
        false
    }
}

fn matches_any(ps: &Vec<Vec<char>>, s: &Vec<char>) -> (r: bool)
    ensures
        r == any_match(patterns_view(ps@), s@),
{
    let mut i: usize = 0;
    while i < ps.len()
        invariant
            i <= ps@.len(),
            forall|j: int| 0 <= j < i ==> !glob(patterns_view(ps@)[j], s@),
        decreases ps.len() - i,
    {
        assert(ps@[i as int]@.skip(0) =~= ps@[i as int]@);
        assert(s@.skip(0) =~= s@);
        if glob_from(&ps[i], 0, s, 0) {
            assert(glob(patterns_view(ps@)[i as int], s@));
            return true;
        }
        i += 1;
    }
    false
}

impl Rules {
    /// No pattern: every path is admitted.
    pub fn new() -> (r: Rules)
        ensures
            r@.0.len() == 0,
            r@.1.len() == 0,
    {
        Rules { inclusion: Vec::new(), exclusion: Vec::new() }
    }

    /// Adds an inclusion pattern; an empty one is refused and left out.
    pub fn add_inclusion(&mut self, pattern: &String) -> (r: Result<(), RuleError>)
        ensures
            pattern@.len() == 0 ==> r == Err::<(), RuleError>(RuleError::Empty) && final(self)@
                == old(self)@,
            pattern@.len() > 0 ==> r is Ok && final(self)@ == (old(self)@.0.push(pattern@), old(
                self,
            )@.1),
    {
        let p = chars_of(pattern);
        if p.len() == 0 {
            return Err(RuleError::Empty);
        }
        let ghost before = self.inclusion@;
        self.inclusion.push(p);
        assert(patterns_view(self.inclusion@) =~= patterns_view(before).push(pattern@));
        Ok(())
    }

    /// Adds an exclusion pattern; an empty one is refused and left out.
    pub fn add_exclusion(&mut self, pattern: &String) -> (r: Result<(), RuleError>)
        ensures
            pattern@.len() == 0 ==> r == Err::<(), RuleError>(RuleError::Empty) && final(self)@
                == old(self)@,
            pattern@.len() > 0 ==> r is Ok && final(self)@ == (old(self)@.0, old(
                self,
            )@.1.push(pattern@)),
    {
        let p = chars_of(pattern);
        if p.len() == 0 {
            return Err(RuleError::Empty);
        }
        let ghost before = self.exclusion@;
        self.exclusion.push(p);
        assert(patterns_view(self.exclusion@) =~= patterns_view(before).push(pattern@));
        Ok(())
    }

    /// Whether `path` is admitted.
    pub fn passes(&self, path: &String) -> (r: bool)
        ensures
            r == admits(self@.0, self@.1, path@),
    {
        let s = chars_of(path);
        let included = self.inclusion.len() == 0 || matches_any(&self.inclusion, &s);
        included && !matches_any(&self.exclusion, &s)
    }
}

} // verus!
