//! The mirrored tree: an arena of entries addressed by position, with the
//! watch handle of each live entry unique, and every live entry but the root
//! listed, under a unique name, among its parent directory's children.
use vstd::prelude::*;
use vstd::pervasive::VecAdditionalExecFns;
use vstd::string::StringExecFns;
use vstd::set_lib::{lemma_int_range, lemma_len_subset, set_int_range};
use crate::entry::{Entry, EntryId};
use crate::rule::{admits, Rules};
use crate::watch::{WatchEvent, WatchEventView};

verus! {

/// Why the tree refused a change.
#[derive(Debug, Clone, Copy, PartialEq, Eq)]
pub enum CacheError {
    /// No live entry stands at that position.
    NotFound,
    /// The entry that should hold children is not a directory.
    NotADirectory,
    /// The directory already holds a child of that name.
    NameTaken,
    /// A live entry already has that watch handle.
    WatchTaken,
    /// The move would put an entry under itself.
    Cycle,
    /// The root can be neither moved nor removed.
    Root,
}

/// What a new entry is, beside its name, parent and watch handle.
pub enum NewEntry {
    /// A file, with the identifier of the read handle its caller keeps open.
    File { file_handle: u64 },
    Dir,
    /// A symbolic link, with the path it points to and the rules that the
    /// paths under that target are admitted by.
    Symlink { link: String, rules: Rules },
}

pub open spec fn live(es: Seq<Option<Entry<u64>>>, i: int) -> bool {
    0 <= i < es.len() && es[i] is Some
}

pub open spec fn ent(es: Seq<Option<Entry<u64>>>, i: int) -> Entry<u64> {
    es[i].unwrap()
}

pub open spec fn is_dir(es: Seq<Option<Entry<u64>>>, i: int) -> bool {
    live(es, i) && ent(es, i) is Dir
}

pub open spec fn children(es: Seq<Option<Entry<u64>>>, d: int) -> Seq<EntryId> {
    ent(es, d).spec_children()
}

pub open spec fn name_of(es: Seq<Option<Entry<u64>>>, i: int) -> Seq<char> {
    ent(es, i).spec_name()
}

pub open spec fn parent_of(es: Seq<Option<Entry<u64>>>, i: int) -> Option<EntryId> {
    ent(es, i).spec_parent()
}

pub open spec fn wd_of(es: Seq<Option<Entry<u64>>>, i: int) -> i32 {
    ent(es, i).spec_wd()
}

/// `d` is a directory with a child named `name`.
pub open spec fn has_child_named(es: Seq<Option<Entry<u64>>>, d: int, name: Seq<char>) -> bool {
    exists|k: int| 0 <= k < children(es, d).len() && name_of(es, children(es, d)[k] as int) == name
}

/// Some live entry has watch handle `wd`.
pub open spec fn wd_used(es: Seq<Option<Entry<u64>>>, wd: i32) -> bool {
    exists|i: int| live(es, i) && wd_of(es, i) == wd
}

pub open spec fn wf(es: Seq<Option<Entry<u64>>>) -> bool {
    &&& es.len() <= usize::MAX
    &&& is_dir(es, 0)
    &&& parent_of(es, 0) is None
    &&& forall|i: int|
        #![trigger live(es, i)]
        live(es, i) && i != 0 ==> {
            let p = parent_of(es, i);
            &&& p is Some
            &&& p.unwrap() != i
            &&& is_dir(es, p.unwrap() as int)
            &&& children(es, p.unwrap() as int).contains(i as EntryId)
        }
    &&& forall|d: int, k: int|
        #![trigger children(es, d)[k]]
        is_dir(es, d) && 0 <= k < children(es, d).len() ==> {
            let c = children(es, d)[k] as int;
            &&& live(es, c)
            &&& c != 0
            &&& parent_of(es, c) == Some(d as EntryId)
        }
    &&& forall|d: int, k1: int, k2: int|
        #![trigger children(es, d)[k1], children(es, d)[k2]]
        is_dir(es, d) && 0 <= k1 < k2 < children(es, d).len() ==> name_of(
            es,
            children(es, d)[k1] as int,
        ) != name_of(es, children(es, d)[k2] as int)
    &&& forall|i: int, j: int|
        #![trigger wd_of(es, i), wd_of(es, j)]
        live(es, i) && live(es, j) && i != j ==> wd_of(es, i) != wd_of(es, j)
}

/// The logical path of entry `i`: the root's name, which is the watched
/// directory's path, then the names down to `i`, joined by '/'. None where
/// `i` is not live or the walk to the root takes more than `fuel` steps.
pub open spec fn path_of(es: Seq<Option<Entry<u64>>>, i: int, fuel: nat) -> Option<Seq<char>>
    decreases fuel,
{
    if !live(es, i) {
        None
    } else {
        match parent_of(es, i) {
            None => Some(name_of(es, i)),
            Some(p) => if fuel == 0 {
                None
            } else {
                match path_of(es, p as int, (fuel - 1) as nat) {
                    Some(pp) => Some(pp + seq!['/'] + name_of(es, i)),
                    None => None,
                }
            },
        }
    }
}

/// The path that entry `i` resolves to.
pub open spec fn resolve(es: Seq<Option<Entry<u64>>>, i: int) -> Option<Seq<char>> {
    path_of(es, i, es.len())
}

/// The tree, and the owner of every entry of it.
pub struct FileSystem {
    entries: Vec<Option<Entry<u64>>>,
}

impl View for FileSystem {
    type V = Seq<Option<Entry<u64>>>;

    closed spec fn view(&self) -> Seq<Option<Entry<u64>>> {
        self.entries@
    }
}

pub open spec fn opt_string_view(s: Option<String>) -> Option<Seq<char>> {
    match s {
        Some(s) => Some(s@),
        None => None,
    }
}

/// `e` is the fresh entry that `kind` describes.
pub open spec fn made_as(e: Entry<u64>, kind: NewEntry) -> bool {
    match kind {
        NewEntry::File { file_handle } => e is File && e->File_data == 0 && e->File_file_handle
            == file_handle,
        NewEntry::Dir => e is Dir && e.spec_children().len() == 0,
        NewEntry::Symlink { link, rules } => e is Symlink && e->Symlink_link@ == link@
            && e->Symlink_rules == rules,
    }
}

/// `new` is `old` with a fresh entry appended as the last child of `p`.
pub open spec fn inserted(
    old: Seq<Option<Entry<u64>>>,
    new: Seq<Option<Entry<u64>>>,
    p: EntryId,
    name: Seq<char>,
    wd: i32,
    kind: NewEntry,
) -> bool {
    let n = old.len() as int;
    &&& new.len() == n + 1
    &&& is_dir(old, p as int)
    &&& forall|j: int| 0 <= j < n && j != p ==> new[j] == old[j]
    &&& live(new, p as int)
    &&& ent(new, p as int).same_but_children(&ent(old, p as int))
    &&& children(new, p as int) == children(old, p as int).push(n as EntryId)
    &&& live(new, n)
    &&& name_of(new, n) == name
    &&& parent_of(new, n) == Some(p)
    &&& wd_of(new, n) == wd
    &&& made_as(ent(new, n), kind)
}

proof fn lemma_path_more_fuel(es: Seq<Option<Entry<u64>>>, i: int, f: nat, g: nat)
    requires
        f <= g,
        path_of(es, i, f) is Some,
    ensures
        path_of(es, i, g) == path_of(es, i, f),
    decreases f,
{
    if let Some(p) = parent_of(es, i) {
        lemma_path_more_fuel(es, p as int, (f - 1) as nat, (g - 1) as nat);
    }
}

proof fn lemma_path_after_insert(
    old: Seq<Option<Entry<u64>>>,
    new: Seq<Option<Entry<u64>>>,
    p: EntryId,
    name: Seq<char>,
    wd: i32,
    kind: NewEntry,
    i: int,
    f: nat,
)
    requires
        wf(old),
        inserted(old, new, p, name, wd, kind),
        0 <= i < old.len(),
    ensures
        path_of(new, i, f) == path_of(old, i, f),
    decreases f,
{
    if i != p {
        assert(new[i] == old[i]);
    }
    assert(live(new, i) == live(old, i));
    if live(old, i) {
        assert(name_of(new, i) == name_of(old, i));
        assert(parent_of(new, i) == parent_of(old, i));
        if i != 0 {
            let q = parent_of(old, i).unwrap() as int;
            assert(is_dir(old, q));
            if f > 0 {
                lemma_path_after_insert(old, new, p, name, wd, kind, q, (f - 1) as nat);
            }
        }
    }
}

/// Creating an entry keeps the path of every entry that resolved before, and
/// the new entry resolves to its parent's path followed by its name.
pub proof fn lemma_insert_resolves(
    old: Seq<Option<Entry<u64>>>,
    new: Seq<Option<Entry<u64>>>,
    p: EntryId,
    name: Seq<char>,
    wd: i32,
    kind: NewEntry,
)
    requires
        wf(old),
        inserted(old, new, p, name, wd, kind),
    ensures
        forall|i: int|
            0 <= i < old.len() && (#[trigger] resolve(old, i)) is Some ==> resolve(new, i)
                == resolve(old, i),
        resolve(old, p as int) is Some ==> resolve(new, old.len() as int) == Some(
            resolve(old, p as int).unwrap() + seq!['/'] + name,
        ),
{
    assert forall|i: int| 0 <= i < old.len() && (#[trigger] resolve(old, i)) is Some implies resolve(
        new,
        i,
    ) == resolve(old, i) by {
        lemma_path_after_insert(old, new, p, name, wd, kind, i, old.len());
        lemma_path_more_fuel(new, i, old.len(), new.len());
    }
    if resolve(old, p as int) is Some {
        lemma_path_after_insert(old, new, p, name, wd, kind, p as int, old.len());
        let n = old.len() as int;
        assert(path_of(new, n, new.len()) == match path_of(new, p as int, old.len()) {
            Some(pp) => Some(pp + seq!['/'] + name),
            None => None,
        });
    }
}

/// `a` is `x` or one of its ancestors, found within `fuel` steps up.
pub open spec fn under(es: Seq<Option<Entry<u64>>>, x: int, a: int, fuel: nat) -> bool
    decreases fuel,
{
    if x == a {
        true
    } else if fuel == 0 || !live(es, x) {
        false
    } else {
        match parent_of(es, x) {
            Some(p) => under(es, p as int, a, (fuel - 1) as nat),
            None => false,
        }
    }
}

/// `d` has a child other than `id` named `name`.
pub open spec fn name_taken(es: Seq<Option<Entry<u64>>>, d: int, name: Seq<char>, id: int) -> bool {
    exists|k: int|
        0 <= k < children(es, d).len() && children(es, d)[k] != id && name_of(
            es,
            children(es, d)[k] as int,
        ) == name
}

/// The entry's kind and everything it holds but its name and parent.
pub open spec fn same_content(a: Entry<u64>, b: Entry<u64>) -> bool {
    &&& a.spec_wd() == b.spec_wd()
    &&& (a is File) == (b is File)
    &&& (a is Dir) == (b is Dir)
    &&& (a is Symlink) == (b is Symlink)
    &&& a is File ==> a->File_data == b->File_data && a->File_file_handle == b->File_file_handle
    &&& a is Dir ==> a.spec_children() == b.spec_children()
    &&& a is Symlink ==> a->Symlink_link == b->Symlink_link && a->Symlink_rules == b->Symlink_rules
}

/// `new` is `old` with entry `id` moved, in place, to the end of the
/// children of `np` under the name `name`.
pub open spec fn moved(
    old: Seq<Option<Entry<u64>>>,
    new: Seq<Option<Entry<u64>>>,
    id: EntryId,
    np: EntryId,
    name: Seq<char>,
) -> bool {
    let op = parent_of(old, id as int).unwrap();
    let k = children(old, op as int).index_of(id);
    let rest = children(old, op as int).remove(k);
    &&& new.len() == old.len()
    &&& is_dir(old, np as int)
    &&& forall|j: int| 0 <= j < old.len() && j != id && j != op && j != np ==> new[j] == old[j]
    &&& live(new, id as int)
    &&& name_of(new, id as int) == name
    &&& parent_of(new, id as int) == Some(np)
    &&& same_content(ent(new, id as int), ent(old, id as int))
    &&& live(new, op as int)
    &&& ent(new, op as int).same_but_children(&ent(old, op as int))
    &&& live(new, np as int)
    &&& ent(new, np as int).same_but_children(&ent(old, np as int))
    &&& op == np ==> children(new, np as int) == rest.push(id)
    &&& op != np ==> children(new, op as int) == rest && children(new, np as int) == children(
        old,
        np as int,
    ).push(id)
}

proof fn lemma_children_distinct(es: Seq<Option<Entry<u64>>>, d: int, k1: int, k2: int)
    requires
        wf(es),
        is_dir(es, d),
        0 <= k1 < children(es, d).len(),
        0 <= k2 < children(es, d).len(),
        k1 != k2,
    ensures
        children(es, d)[k1] != children(es, d)[k2],
{
    if k1 < k2 {
        assert(name_of(es, children(es, d)[k1] as int) != name_of(es, children(es, d)[k2] as int));
    } else {
        assert(name_of(es, children(es, d)[k2] as int) != name_of(es, children(es, d)[k1] as int));
    }
}

/// Moving an entry in place keeps the tree well formed.
proof fn lemma_moved_wf(
    es: Seq<Option<Entry<u64>>>,
    ns: Seq<Option<Entry<u64>>>,
    id: EntryId,
    np: EntryId,
    name: Seq<char>,
)
    requires
        wf(es),
        live(es, id as int),
        id != 0,
        is_dir(es, np as int),
        !under(es, np as int, id as int, es.len()),
        !name_taken(es, np as int, name, id as int),
        moved(es, ns, id, np, name),
    ensures
        wf(ns),
{
    let op = parent_of(es, id as int).unwrap();
    let ch = children(es, op as int);
    assert(live(es, id as int));
    let k0 = ch.index_of(id);
    assert(ch.contains(id));
    assert(0 <= k0 < ch.len() && ch[k0] == id);
    let rest = ch.remove(k0);
    assert(np != id);
    assert(op != id);
    assert forall|j: int| 0 <= j < rest.len() implies rest[j] != id && ch.contains(#[trigger] rest[j])
        by {
        if j < k0 {
            assert(rest[j] == ch[j]);
            lemma_children_distinct(es, op as int, j, k0);
        } else {
            assert(rest[j] == ch[j + 1]);
            lemma_children_distinct(es, op as int, j + 1, k0);
        }
    }
    // every entry keeps its liveness, and all but `id` their name and parent
    assert forall|j: int| 0 <= j < es.len() implies #[trigger] live(ns, j) == live(es, j) && (j
        != id ==> name_of(ns, j) == name_of(es, j) && parent_of(ns, j) == parent_of(es, j)
        && wd_of(ns, j) == wd_of(es, j) && (ent(ns, j) is Dir) == (ent(es, j) is Dir) || !live(
        es,
        j,
    )) && (live(es, j) ==> wd_of(ns, j) == wd_of(es, j) && (ent(ns, j) is Dir) == (ent(
        es,
        j,
    ) is Dir)) by {
        if j != id && j != op && j != np {
            assert(ns[j] == es[j]);
        }
    }
    // children lists of directories other than op and np are unchanged
    assert forall|d: int| #[trigger]
        is_dir(ns, d) && d != op && d != np implies children(ns, d) == children(es, d) by {
        if d != id {
            assert(ns[d] == es[d]);
        }
    }
    assert forall|i: int| #![trigger live(ns, i)] live(ns, i) && i != 0 implies {
        let p = parent_of(ns, i);
        &&& p is Some
        &&& p.unwrap() != i
        &&& is_dir(ns, p.unwrap() as int)
        &&& children(ns, p.unwrap() as int).contains(i as EntryId)
    } by {
        assert(live(es, i));
        if i == id {
            assert(children(ns, np as int).last() == id);
        } else {
            let q = parent_of(es, i).unwrap();
            assert(is_dir(es, q as int));
            assert(live(ns, q as int));
            let kq = children(es, q as int).index_of(i as EntryId);
            assert(children(es, q as int).contains(i as EntryId));
            assert(0 <= kq < children(es, q as int).len() && children(es, q as int)[kq] == i);
            if q == op {
                if kq < k0 {
                    assert(rest[kq] == i);
                } else {
                    assert(kq != k0);
                    assert(rest[kq - 1] == i);
                }
                assert(rest.contains(i as EntryId));
                if op == np {
                    let ri = rest.index_of(i as EntryId);
                    assert(rest[ri] == i);
                    assert(children(ns, np as int)[ri] == i);
                }
            } else if q == np {
                assert(children(ns, np as int)[kq] == i);
            } else {
                assert(children(ns, q as int) == children(es, q as int));
            }
        }
    }
    assert forall|d: int, k: int|
        #![trigger children(ns, d)[k]]
        is_dir(ns, d) && 0 <= k < children(ns, d).len() implies {
        let c = children(ns, d)[k] as int;
        &&& live(ns, c)
        &&& c != 0
        &&& parent_of(ns, c) == Some(d as EntryId)
    } by {
        assert(live(es, d));
        assert(is_dir(es, d));
        let c = children(ns, d)[k] as int;
        if d == np && k == children(ns, d).len() - 1 {
            assert(c == id);
        } else if d == op || d == np {
            let base = if d == op {
                rest
            } else {
                children(es, np as int)
            };
            assert(c == base[k]);
            if d == op {
                assert(rest[k] != id && ch.contains(rest[k]));
                let kk = ch.index_of(rest[k]);
                assert(ch[kk] == c);
            } else {
                assert(children(es, np as int)[k] == c);
                if c == id {
                    assert(parent_of(es, c) == Some(np));
                }
            }
        } else {
            assert(children(es, d)[k] == c);
            if c == id {
                assert(parent_of(es, c) == Some(d as EntryId));
            }
        }
    }
    assert forall|d: int, k1: int, k2: int|
        #![trigger children(ns, d)[k1], children(ns, d)[k2]]
        is_dir(ns, d) && 0 <= k1 < k2 < children(ns, d).len() implies name_of(
        ns,
        children(ns, d)[k1] as int,
    ) != name_of(ns, children(ns, d)[k2] as int) by {
        assert(is_dir(es, d));
        let c1 = children(ns, d)[k1];
        let c2 = children(ns, d)[k2];
        if d == op || d == np {
            let base = if d == op && op != np {
                rest
            } else if d == op {
                rest
            } else {
                children(es, np as int)
            };
            let last = d == np && k2 == children(ns, d).len() - 1;
            // map positions of the new list back to positions of the old one
            let m1 = if d == op {
                if k1 < k0 {
                    k1
                } else {
                    k1 + 1
                }
            } else {
                k1
            };
            let m2 = if d == op {
                if k2 < k0 {
                    k2
                } else {
                    k2 + 1
                }
            } else {
                k2
            };
            let old_ch = children(es, d);
            assert(c1 == old_ch[m1]);
            assert(c1 != id) by {
                if d == op {
                    assert(rest[k1] != id);
                } else {
                    if c1 == id {
                        assert(parent_of(es, id as int) == Some(np));
                    }
                }
            }
            if last {
                assert(c2 == id);
                assert(name_of(ns, c2 as int) == name);
                assert(!(0 <= m1 < old_ch.len() && old_ch[m1] != id && name_of(
                    es,
                    old_ch[m1] as int,
                ) == name)) by {
                    if d != np {
                    }
                }
            } else {
                assert(c2 == old_ch[m2]);
                assert(c2 != id) by {
                    if d == op {
                        assert(rest[k2] != id);
                    } else {
                        if c2 == id {
                            assert(parent_of(es, id as int) == Some(np));
                        }
                    }
                }
                assert(name_of(es, old_ch[m1] as int) != name_of(es, old_ch[m2] as int));
            }
        } else {
            assert(children(ns, d) == children(es, d));
            if c1 == id {
                assert(parent_of(es, id as int) == Some(d as EntryId));
            }
            if c2 == id {
                assert(parent_of(es, id as int) == Some(d as EntryId));
            }
        }
    }
}

proof fn lemma_under_more_fuel(es: Seq<Option<Entry<u64>>>, x: int, a: int, f: nat, g: nat)
    requires
        f <= g,
        under(es, x, a, f),
    ensures
        under(es, x, a, g),
    decreases f,
{
    if x != a {
        let p = parent_of(es, x).unwrap();
        lemma_under_more_fuel(es, p as int, a, (f - 1) as nat, (g - 1) as nat);
    }
}

/// An entry that is still live, in a well formed tree where `id` is gone and
/// parents are as they were, was not under `id`.
proof fn lemma_survivor_not_under(
    es: Seq<Option<Entry<u64>>>,
    ns: Seq<Option<Entry<u64>>>,
    id: int,
    i: int,
    f: nat,
)
    requires
        wf(ns),
        ns.len() == es.len(),
        !live(ns, id),
        forall|j: int| #[trigger] live(ns, j) ==> live(es, j) && parent_of(ns, j) == parent_of(es, j),
        live(ns, i),
    ensures
        !under(es, i, id, f),
    decreases f,
{
    if f > 0 && i != 0 {
        assert(live(ns, i));
        let p = parent_of(ns, i).unwrap();
        lemma_survivor_not_under(es, ns, id, p as int, (f - 1) as nat);
    }
}

/// What detaching `id` from its parent leaves: the other children, in order,
/// each a child of the parent and with its name distinct.
proof fn lemma_rest(es: Seq<Option<Entry<u64>>>, id: EntryId)
    requires
        wf(es),
        live(es, id as int),
        id != 0,
    ensures
        ({
            let op = parent_of(es, id as int).unwrap();
            let ch = children(es, op as int);
            let k0 = ch.index_of(id);
            let rest = ch.remove(k0);
            &&& 0 <= k0 < ch.len()
            &&& ch[k0] == id
            &&& forall|j: int|
                0 <= j < rest.len() ==> #[trigger] rest[j] != id && ch.contains(rest[j])
            &&& forall|c: EntryId| ch.contains(c) && c != id ==> rest.contains(c)
            &&& forall|k1: int, k2: int|
                0 <= k1 < k2 < rest.len() ==> name_of(es, #[trigger] rest[k1] as int) != name_of(
                    es,
                    #[trigger] rest[k2] as int,
                )
        }),
{
    let op = parent_of(es, id as int).unwrap();
    let ch = children(es, op as int);
    assert(ch.contains(id));
    let k0 = ch.index_of(id);
    let rest = ch.remove(k0);
    assert forall|j: int| 0 <= j < rest.len() implies #[trigger] rest[j] != id && ch.contains(
        rest[j],
    ) by {
        if j < k0 {
            assert(rest[j] == ch[j]);
            lemma_children_distinct(es, op as int, j, k0);
        } else {
            assert(rest[j] == ch[j + 1]);
            lemma_children_distinct(es, op as int, j + 1, k0);
        }
    }
    assert forall|c: EntryId| ch.contains(c) && c != id implies rest.contains(c) by {
        let kc = ch.index_of(c);
        assert(ch[kc] == c);
        if kc < k0 {
            assert(rest[kc] == c);
        } else {
            assert(rest[kc - 1] == c);
        }
    }
    assert forall|k1: int, k2: int| 0 <= k1 < k2 < rest.len() implies name_of(
        es,
        #[trigger] rest[k1] as int,
    ) != name_of(es, #[trigger] rest[k2] as int) by {
        let m1 = if k1 < k0 {
            k1
        } else {
            k1 + 1
        };
        let m2 = if k2 < k0 {
            k2
        } else {
            k2 + 1
        };
        assert(rest[k1] == ch[m1]);
        assert(rest[k2] == ch[m2]);
        assert(name_of(es, ch[m1] as int) != name_of(es, ch[m2] as int));
    }
}

/// `new` is `old` without `id` and everything under it.
pub open spec fn removed(old: Seq<Option<Entry<u64>>>, new: Seq<Option<Entry<u64>>>, id: EntryId) -> bool {
    let op = parent_of(old, id as int).unwrap();
    let ch = children(old, op as int);
    let rest = ch.remove(ch.index_of(id));
    &&& new.len() == old.len()
    &&& forall|i: int| live(new, i) && i != op ==> new[i] == old[i]
    &&& live(new, op as int) ==> ent(new, op as int).same_but_children(&ent(old, op as int))
        && children(new, op as int) == rest
    &&& forall|i: int|
        #![trigger live(old, i)]
        live(old, i) ==> (live(new, i) <==> !under(old, i, id as int, old.len()))
}

proof fn lemma_path_after_remove(
    old: Seq<Option<Entry<u64>>>,
    new: Seq<Option<Entry<u64>>>,
    id: EntryId,
    i: int,
    f: nat,
)
    requires
        wf(old),
        wf(new),
        live(old, id as int),
        id != 0,
        removed(old, new, id),
        live(new, i),
    ensures
        path_of(new, i, f) == path_of(old, i, f),
    decreases f,
{
    let op = parent_of(old, id as int).unwrap();
    assert(name_of(new, i) == name_of(old, i) && parent_of(new, i) == parent_of(old, i)) by {
        if i != op {
            assert(new[i] == old[i]);
        }
    }
    assert(live(old, i)) by {
        if i != op {
            assert(new[i] == old[i]);
        }
    }
    if i != 0 && f > 0 {
        let p = parent_of(new, i).unwrap();
        lemma_path_after_remove(old, new, id, p as int, (f - 1) as nat);
    }
}

/// Removing an entry keeps the path of every entry that stays, and every
/// entry it takes away no longer resolves.
pub proof fn lemma_remove_resolves(old: Seq<Option<Entry<u64>>>, new: Seq<Option<Entry<u64>>>, id: EntryId)
    requires
        wf(old),
        wf(new),
        live(old, id as int),
        id != 0,
        removed(old, new, id),
    ensures
        forall|i: int| #[trigger] live(new, i) ==> resolve(new, i) == resolve(old, i),
        forall|i: int|
            #![trigger resolve(new, i)]
            live(old, i) && under(old, i, id as int, old.len()) ==> resolve(new, i) is None,
        resolve(new, id as int) is None,
{
    assert forall|i: int| #[trigger] live(new, i) implies resolve(new, i) == resolve(old, i) by {
        lemma_path_after_remove(old, new, id, i, old.len());
    }
    assert(under(old, id as int, id as int, old.len()));
}

proof fn lemma_path_after_move(
    old: Seq<Option<Entry<u64>>>,
    new: Seq<Option<Entry<u64>>>,
    id: EntryId,
    np: EntryId,
    name: Seq<char>,
    x: int,
    f: nat,
)
    requires
        wf(old),
        live(old, id as int),
        id != 0,
        moved(old, new, id, np, name),
        0 <= x < old.len(),
        !under(old, x, id as int, f),
    ensures
        path_of(new, x, f) == path_of(old, x, f),
    decreases f,
{
    let op = parent_of(old, id as int).unwrap();
    assert(x != id);
    assert(live(old, id as int));
    assert(is_dir(old, op as int));
    assert(live(new, x) == live(old, x) && (live(old, x) ==> name_of(new, x) == name_of(old, x)
        && parent_of(new, x) == parent_of(old, x))) by {
        if x != op && x != np {
            assert(new[x] == old[x]);
        }
    }
    if live(old, x) && x != 0 && f > 0 {
        let p = parent_of(old, x).unwrap();
        assert(is_dir(old, p as int));
        lemma_path_after_move(old, new, id, np, name, p as int, (f - 1) as nat);
    }
}

/// Renaming an entry within its directory: it resolves under its new name in
/// the same directory, and every entry not under it keeps its path.
pub proof fn lemma_rename_resolves(
    old: Seq<Option<Entry<u64>>>,
    new: Seq<Option<Entry<u64>>>,
    id: EntryId,
    name: Seq<char>,
)
    requires
        wf(old),
        live(old, id as int),
        id != 0,
        moved(old, new, id, parent_of(old, id as int).unwrap(), name),
        !under(old, parent_of(old, id as int).unwrap() as int, id as int, old.len()),
        resolve(old, id as int) is Some,
    ensures
        ({
            let d = parent_of(old, id as int).unwrap() as int;
            resolve(new, id as int) == Some(resolve(old, d).unwrap() + seq!['/'] + name)
        }),
        forall|x: int|
            0 <= x < old.len() && !under(old, x, id as int, old.len()) && (#[trigger] resolve(
                old,
                x,
            )) is Some ==> resolve(new, x) == resolve(old, x),
{
    let d = parent_of(old, id as int).unwrap();
    let f = (old.len() - 1) as nat;
    assert(is_dir(old, d as int));
    assert(!under(old, d as int, id as int, f)) by {
        if under(old, d as int, id as int, f) {
            lemma_under_more_fuel(old, d as int, id as int, f, old.len());
        }
    }
    lemma_path_after_move(old, new, id, d, name, d as int, f);
    lemma_path_more_fuel(old, d as int, f, old.len());
    assert forall|x: int|
        0 <= x < old.len() && !under(old, x, id as int, old.len()) && (#[trigger] resolve(
            old,
            x,
        )) is Some implies resolve(new, x) == resolve(old, x) by {
        lemma_path_after_move(old, new, id, d, name, x, old.len());
    }
}

/// A successful change of the tree by creation or deletion.
pub enum TreeStep {
    Insert { parent: EntryId, name: Seq<char>, wd: i32, kind: NewEntry },
    Remove { id: EntryId },
}

/// `new` is what step `st` made of `old`.
pub open spec fn step_holds(
    old: Seq<Option<Entry<u64>>>,
    new: Seq<Option<Entry<u64>>>,
    st: TreeStep,
) -> bool {
    &&& wf(old)
    &&& wf(new)
    &&& match st {
        TreeStep::Insert { parent, name, wd, kind } => inserted(old, new, parent, name, wd, kind),
        TreeStep::Remove { id } => live(old, id as int) && id != 0 && removed(old, new, id),
    }
}

/// Every entry but the root comes after its parent in the arena.
pub open spec fn ordered(es: Seq<Option<Entry<u64>>>) -> bool {
    forall|i: int| #[trigger] live(es, i) && i != 0 ==> parent_of(es, i).unwrap() < i
}

proof fn lemma_ordered_resolves(es: Seq<Option<Entry<u64>>>, i: int, f: nat)
    requires
        wf(es),
        ordered(es),
        live(es, i),
        f >= i,
    ensures
        path_of(es, i, f) is Some,
    decreases i,
{
    if i != 0 {
        let p = parent_of(es, i).unwrap() as int;
        assert(is_dir(es, p));
        lemma_ordered_resolves(es, p, (f - 1) as nat);
    }
}

/// Creations and deletions: starting from a tree that holds only its root,
/// after any run of successful creations and deletions every live entry
/// resolves, and to the path it had at every earlier point where it was
/// live; an entry that is no longer live does not resolve.
#[verifier::rlimit(60)]
pub proof fn lemma_create_delete_paths(
    states: Seq<Seq<Option<Entry<u64>>>>,
    steps: Seq<TreeStep>,
)
    requires
        states.len() == steps.len() + 1,
        wf(states[0]),
        states[0].len() == 1,
        forall|j: int| 0 <= j < steps.len() ==> step_holds(states[j], states[j + 1], steps[j]),
    ensures
        wf(states.last()),
        ordered(states.last()),
        forall|j: int| 0 <= j < states.len() ==> states[j].len() <= states.last().len(),
        forall|i: int| live(states.last(), i) ==> (#[trigger] resolve(states.last(), i)) is Some,
        forall|i: int| !live(states.last(), i) ==> (#[trigger] resolve(states.last(), i)) is None,
        forall|i: int, j: int|
            0 <= j < states.len() && live(states[j], i) && live(states.last(), i) ==> resolve(
                states.last(),
                i,
            ) == #[trigger] resolve(states[j], i),
    decreases steps.len(),
{
    let last = states.last();
    if steps.len() == 0 {
        assert(ordered(last));
        assert forall|i: int| live(last, i) implies (#[trigger] resolve(last, i)) is Some by {
            lemma_ordered_resolves(last, i, last.len());
        }
    } else {
        let k = steps.len() - 1;
        let prev = states.drop_last();
        assert(prev.last() == states[k]);
        assert forall|j: int| 0 <= j < steps.drop_last().len() implies step_holds(
            prev[j],
            prev[j + 1],
            steps.drop_last()[j],
        ) by {
            assert(step_holds(states[j], states[j + 1], steps[j]));
        }
        lemma_create_delete_paths(prev, steps.drop_last());
        let old = states[k];
        assert(step_holds(old, last, steps[k]));
        assert(last == states[k + 1]);
        match steps[k] {
            TreeStep::Insert { parent, name, wd, kind } => {
                lemma_insert_resolves(old, last, parent, name, wd, kind);
                assert forall|i: int| #[trigger] live(last, i) && i != 0 implies parent_of(
                    last,
                    i,
                ).unwrap() < i by {
                    if i < old.len() {
                        if i != parent {
                            assert(last[i] == old[i]);
                        }
                        assert(live(old, i));
                    }
                }
                assert forall|i: int, j: int|
                    0 <= j < states.len() && live(states[j], i) && live(last, i) implies resolve(
                    last,
                    i,
                ) == #[trigger] resolve(states[j], i) by {
                    if j < states.len() - 1 {
                        assert(prev[j] == states[j]);
                        assert(states[j].len() <= old.len());
                        assert(live(old, i)) by {
                            if i != parent {
                                assert(last[i] == old[i]);
                            }
                        }
                        assert(resolve(old, i) is Some);
                    }
                }
            },
            TreeStep::Remove { id } => {
                lemma_remove_resolves(old, last, id);
                let op = parent_of(old, id as int).unwrap();
                assert(live(old, id as int));
                assert(is_dir(old, op as int));
                assert forall|i: int| live(last, i) implies #[trigger] live(old, i) && parent_of(
                    last,
                    i,
                ) == parent_of(old, i) by {
                    if i != op {
                        assert(last[i] == old[i]);
                    }
                }
                assert forall|i: int| #[trigger] live(last, i) && i != 0 implies parent_of(
                    last,
                    i,
                ).unwrap() < i by {
                    assert(live(old, i));
                }
                assert forall|i: int, j: int|
                    0 <= j < states.len() && live(states[j], i) && live(last, i) implies resolve(
                    last,
                    i,
                ) == #[trigger] resolve(states[j], i) by {
                    if j < states.len() - 1 {
                        assert(prev[j] == states[j]);
                        assert(live(old, i));
                    }
                }
            },
        }
        assert forall|i: int| live(last, i) implies (#[trigger] resolve(last, i)) is Some by {
            lemma_ordered_resolves(last, i, last.len());
        }
        assert forall|j: int| 0 <= j < states.len() implies states[j].len() <= last.len() by {
            if j < states.len() - 1 {
                assert(prev[j] == states[j]);
            }
        }
    }
}

/// What the tree tells the tailer: the entry concerned, never its content.
#[derive(Debug, Clone, Copy, PartialEq, Eq)]
pub enum Event {
    /// A file that was there when watching began.
    Initialize(EntryId),
    /// A file that appeared.
    New(EntryId),
    /// A file that was written to.
    Write(EntryId),
    /// An entry about to go away; it is still in the tree.
    Delete(EntryId),
}

pub open spec fn is_file(es: Seq<Option<Entry<u64>>>, i: int) -> bool {
    live(es, i) && ent(es, i) is File
}

pub open spec fn offset_of(es: Seq<Option<Entry<u64>>>, i: int) -> u64 {
    ent(es, i)->File_data
}

/// `new` is `old` with the offset of file `id` set to `v`.
pub open spec fn with_offset(old: Seq<Option<Entry<u64>>>, new: Seq<Option<Entry<u64>>>, id: int, v: u64) -> bool {
    &&& new.len() == old.len()
    &&& forall|j: int| 0 <= j < old.len() && j != id ==> new[j] == old[j]
    &&& is_file(new, id)
    &&& offset_of(new, id) == v
    &&& name_of(new, id) == name_of(old, id)
    &&& parent_of(new, id) == parent_of(old, id)
    &&& wd_of(new, id) == wd_of(old, id)
    &&& ent(new, id)->File_file_handle == ent(old, id)->File_file_handle
}

/// `i` is the first entry that resolves to `path`.
pub open spec fn is_first_at(es: Seq<Option<Entry<u64>>>, path: Seq<char>, i: int) -> bool {
    &&& 0 <= i < es.len()
    &&& resolve(es, i) == Some(path)
    &&& forall|j: int| 0 <= j < i ==> resolve(es, j) != Some(path)
}

/// The first entry that resolves to `path`, if any.
pub open spec fn entry_at(es: Seq<Option<Entry<u64>>>, path: Seq<char>) -> Option<int> {
    if exists|i: int| is_first_at(es, path, i) {
        Some(choose|i: int| is_first_at(es, path, i))
    } else {
        None
    }
}

/// The paths an entry is tailed under: the one it resolves to, if any.
pub open spec fn paths_of(es: Seq<Option<Entry<u64>>>, i: int) -> Seq<Seq<char>> {
    match resolve(es, i) {
        Some(p) => seq![p],
        None => seq![],
    }
}

/// The file whose content an event asks to read: the entry itself where it
/// is a file, or for a symbolic link that goes away, the file it points to.
/// None for an entry that no longer resolves (but at startup).
pub open spec fn read_target(es: Seq<Option<Entry<u64>>>, ev: Event) -> Option<EntryId> {
    match ev {
        Event::Initialize(id) => if is_file(es, id as int) {
            Some(id)
        } else {
            None
        },
        Event::New(id) | Event::Write(id) => if resolve(es, id as int) is Some && is_file(
            es,
            id as int,
        ) {
            Some(id)
        } else {
            None
        },
        Event::Delete(id) => if resolve(es, id as int) is None || !live(es, id as int) {
            None
        } else if ent(es, id as int) is File {
            Some(id)
        } else if ent(es, id as int) is Symlink {
            match entry_at(es, ent(es, id as int)->Symlink_link@) {
                Some(t) => if is_file(es, t) {
                    Some(t as EntryId)
                } else {
                    None
                },
                None => None,
            }
        } else {
            None
        },
    }
}

/// The logical paths of the live entries other than the root.
pub open spec fn path_set(es: Seq<Option<Entry<u64>>>) -> Set<Seq<char>> {
    Set::new(|p: Seq<char>| exists|i: int| live(es, i) && i != 0 && resolve(es, i) == Some(p))
}

/// The path that step `st` creates or deletes in `old`.
pub open spec fn step_path(old: Seq<Option<Entry<u64>>>, st: TreeStep) -> Seq<char> {
    match st {
        TreeStep::Insert { parent, name, .. } => resolve(old, parent as int).unwrap() + seq!['/']
            + name,
        TreeStep::Remove { id } => resolve(old, id as int).unwrap(),
    }
}

/// The paths created by the first `k` steps.
pub open spec fn created(
    states: Seq<Seq<Option<Entry<u64>>>>,
    steps: Seq<TreeStep>,
    k: int,
) -> Set<Seq<char>>
    decreases k,
{
    if k <= 0 {
        Set::empty()
    } else if steps[k - 1] is Insert {
        created(states, steps, k - 1).insert(step_path(states[k - 1], steps[k - 1]))
    } else {
        created(states, steps, k - 1)
    }
}

/// The paths deleted by the first `k` steps.
pub open spec fn deleted(
    states: Seq<Seq<Option<Entry<u64>>>>,
    steps: Seq<TreeStep>,
    k: int,
) -> Set<Seq<char>>
    decreases k,
{
    if k <= 0 {
        Set::empty()
    } else if steps[k - 1] is Remove {
        deleted(states, steps, k - 1).insert(step_path(states[k - 1], steps[k - 1]))
    } else {
        deleted(states, steps, k - 1)
    }
}

/// No live entry but `id` lies under `id`: it has no children.
pub open spec fn is_leaf(es: Seq<Option<Entry<u64>>>, id: EntryId) -> bool {
    forall|i: int| #[trigger] live(es, i) ==> parent_of(es, i) != Some(id)
}

proof fn lemma_under_leaf(es: Seq<Option<Entry<u64>>>, id: EntryId, i: int, f: nat)
    requires
        wf(es),
        is_leaf(es, id),
        live(es, i),
        under(es, i, id as int, f),
    ensures
        i == id,
    decreases f,
{
    if i != id {
        let p = parent_of(es, i).unwrap();
        if i != 0 {
            assert(is_dir(es, p as int));
            lemma_under_leaf(es, id, p as int, (f - 1) as nat);
        }
    }
}

proof fn lemma_prefix_paths(states: Seq<Seq<Option<Entry<u64>>>>, steps: Seq<TreeStep>, k: int)
    requires
        states.len() == steps.len() + 1,
        0 <= k < states.len(),
        wf(states[0]),
        states[0].len() == 1,
        forall|j: int| 0 <= j < steps.len() ==> step_holds(states[j], states[j + 1], steps[j]),
    ensures
        wf(states[k]),
        forall|i: int| live(states[k], i) ==> (#[trigger] resolve(states[k], i)) is Some,
{
    let st = states.take(k + 1);
    let sp = steps.take(k);
    assert forall|j: int| 0 <= j < sp.len() implies step_holds(st[j], st[j + 1], sp[j]) by {
        assert(step_holds(states[j], states[j + 1], steps[j]));
    }
    lemma_create_delete_paths(st, sp);
    assert(st.last() == states[k]);
}

/// Creations and deletions over distinct paths: starting from a tree that
/// holds only its root, after any run of successful creations, each of a
/// path no earlier step created, and deletions of entries with nothing under
/// them, the paths that entries resolve to are exactly those created and
/// not deleted.
#[verifier::rlimit(80)]
pub proof fn lemma_path_set_after_steps(
    states: Seq<Seq<Option<Entry<u64>>>>,
    steps: Seq<TreeStep>,
    k: int,
)
    requires
        states.len() == steps.len() + 1,
        0 <= k < states.len(),
        wf(states[0]),
        states[0].len() == 1,
        forall|j: int| 0 <= j < steps.len() ==> step_holds(states[j], states[j + 1], steps[j]),
        forall|j: int|
            0 <= j < steps.len() && (#[trigger] steps[j]) is Remove ==> is_leaf(
                states[j],
                steps[j]->id,
            ),
        forall|j1: int, j2: int|
            0 <= j1 < j2 < steps.len() && (#[trigger] steps[j1]) is Insert && (#[trigger] steps[j2]) is Insert
                ==> step_path(states[j1], steps[j1]) != step_path(states[j2], steps[j2]),
    ensures
        path_set(states[k]) == created(states, steps, k).difference(deleted(states, steps, k)),
        deleted(states, steps, k).subset_of(created(states, steps, k)),
        forall|x: Seq<char>|
            created(states, steps, k).contains(x) ==> exists|j: int|
                0 <= j < k && (#[trigger] steps[j]) is Insert && step_path(states[j], steps[j]) == x,
        forall|i: int, j: int|
            live(states[k], i) && live(states[k], j) && i != 0 && j != 0 && i != j ==> resolve(
                states[k],
                i,
            ) != resolve(states[k], j),
    decreases k,
{
    let es = states[k];
    if k == 0 {
        assert(path_set(es) =~= Set::<Seq<char>>::empty()) by {
            assert forall|p: Seq<char>| !path_set(es).contains(p) by {
                assert forall|i: int| !(live(es, i) && i != 0) by {}
            }
        }
        assert(created(states, steps, 0).difference(deleted(states, steps, 0)) =~= Set::<
            Seq<char>,
        >::empty());
    } else {
        lemma_path_set_after_steps(states, steps, k - 1);
        let old = states[k - 1];
        let st = steps[k - 1];
        assert(step_holds(old, es, st));
        lemma_prefix_paths(states, steps, k - 1);
        lemma_prefix_paths(states, steps, k);
        let c0 = created(states, steps, k - 1);
        let d0 = deleted(states, steps, k - 1);
        let p = step_path(old, st);
        match st {
            TreeStep::Insert { parent, name, wd, kind } => {
                lemma_insert_resolves(old, es, parent, name, wd, kind);
                let n = old.len() as int;
                assert(resolve(old, parent as int) is Some);
                assert(resolve(es, n) == Some(p));
                assert(!c0.contains(p)) by {
                    if c0.contains(p) {
                        let j = choose|j: int|
                            0 <= j < k - 1 && (#[trigger] steps[j]) is Insert && step_path(
                                states[j],
                                steps[j],
                            ) == p;
                        assert(step_path(states[j], steps[j]) != step_path(states[k - 1], steps[k - 1]));
                    }
                }
                // entries that were live keep their paths; the new one adds `p`
                assert forall|i: int| 0 <= i < n && live(es, i) implies live(old, i) && resolve(
                    es,
                    i,
                ) == resolve(old, i) by {
                    if i != parent {
                        assert(es[i] == old[i]);
                    }
                    assert(live(old, i));
                    assert(resolve(old, i) is Some);
                }
                assert forall|i: int| live(old, i) implies live(es, i) by {
                    if i != parent {
                        assert(es[i] == old[i]);
                    }
                }
                assert(path_set(es) =~= path_set(old).insert(p)) by {
                    assert forall|q: Seq<char>| path_set(es).contains(q) implies path_set(old).insert(
                        p,
                    ).contains(q) by {
                        let i = choose|i: int| live(es, i) && i != 0 && resolve(es, i) == Some(q);
                        if i < n {
                            assert(path_set(old).contains(q));
                        }
                    }
                    assert forall|q: Seq<char>| path_set(old).insert(p).contains(q) implies path_set(
                        es,
                    ).contains(q) by {
                        if q != p {
                            let i = choose|i: int| live(old, i) && i != 0 && resolve(old, i) == Some(q);
                            assert(resolve(old, i) is Some);
                            assert(live(es, i) && resolve(es, i) == Some(q));
                        } else {
                            assert(live(es, n) && n != 0);
                        }
                    }
                }
                assert(created(states, steps, k) == c0.insert(p));
                assert(deleted(states, steps, k) == d0);
                assert(c0.insert(p).difference(d0) =~= c0.difference(d0).insert(p));
                assert forall|x: Seq<char>| created(states, steps, k).contains(x) implies exists|j: int|
                    0 <= j < k && (#[trigger] steps[j]) is Insert && step_path(states[j], steps[j])
                        == x by {
                    if x == p {
                        assert(steps[k - 1] is Insert);
                    } else {
                        let j = choose|j: int|
                            0 <= j < k - 1 && (#[trigger] steps[j]) is Insert && step_path(
                                states[j],
                                steps[j],
                            ) == x;
                    }
                }
                assert forall|i: int, j: int|
                    live(es, i) && live(es, j) && i != 0 && j != 0 && i != j implies resolve(es, i)
                    != resolve(es, j) by {
                    if i < n && j < n {
                    } else if i < n {
                        assert(path_set(old).contains(resolve(old, i).unwrap()));
                    } else {
                        assert(path_set(old).contains(resolve(old, j).unwrap()));
                    }
                }
            },
            TreeStep::Remove { id } => {
                lemma_remove_resolves(old, es, id);
                assert(is_leaf(old, id)) by {
                    assert(steps[k - 1] is Remove);
                }
                assert(resolve(old, id as int) is Some);
                let op = parent_of(old, id as int).unwrap();
                assert forall|i: int| live(old, i) implies (live(es, i) <==> i != id) by {
                    if under(old, i, id as int, old.len()) {
                        lemma_under_leaf(old, id, i, old.len());
                    }
                }
                assert forall|i: int| live(es, i) implies live(old, i) by {
                    if i != op {
                        assert(es[i] == old[i]);
                    }
                }
                assert(path_set(es) =~= path_set(old).remove(p)) by {
                    assert forall|q: Seq<char>| path_set(es).contains(q) implies path_set(old).remove(
                        p,
                    ).contains(q) by {
                        let i = choose|i: int| live(es, i) && i != 0 && resolve(es, i) == Some(q);
                        assert(live(old, i));
                        assert(i != id);
                        assert(resolve(old, i) == Some(q));
                    }
                    assert forall|q: Seq<char>| path_set(old).remove(p).contains(q) implies path_set(
                        es,
                    ).contains(q) by {
                        let i = choose|i: int| live(old, i) && i != 0 && resolve(old, i) == Some(q);
                        assert(i != id);
                        assert(live(es, i));
                    }
                }
                assert(created(states, steps, k) == c0);
                assert(deleted(states, steps, k) == d0.insert(p));
                assert(path_set(old).contains(p));
                assert(c0.difference(d0.insert(p)) =~= c0.difference(d0).remove(p));
                assert forall|i: int, j: int|
                    live(es, i) && live(es, j) && i != 0 && j != 0 && i != j implies resolve(es, i)
                    != resolve(es, j) by {
                    assert(live(old, i) && live(old, j));
                }
            },
        }
    }
}

/// Rename preserves identity: when a reconciled `Move` of an entry becomes a
/// rename and the tree applies it, the entry stays live at the same
/// position with the same watch handle, read offset and read handle, and the
/// event is neither a deletion nor a creation.
pub proof fn lemma_move_keeps_identity(
    old: Seq<Option<Entry<u64>>>,
    new: Seq<Option<Entry<u64>>>,
    rules: (Seq<Seq<char>>, Seq<Seq<char>>),
    ev: WatchEventView,
    entry: EntryId,
    new_parent: EntryId,
    new_name: Seq<char>,
)
    requires
        wf(old),
        action_for(old, rules, ev) == (ActionView::Rename { entry, new_parent, new_name }),
        moved(old, new, entry, new_parent, new_name),
    ensures
        ev is Move,
        live(new, entry as int),
        wd_of(new, entry as int) == wd_of(old, entry as int),
        is_file(old, entry as int) ==> is_file(new, entry as int) && offset_of(new, entry as int)
            == offset_of(old, entry as int) && ent(new, entry as int)->File_file_handle == ent(
            old,
            entry as int,
        )->File_file_handle,
{
}

/// Where the read that `ev` asks for starts in file `t`: nowhere for a file
/// seen at startup (it only gets its first offset), at the start of a new
/// file, and at the stored offset otherwise.
pub open spec fn read_start(es: Seq<Option<Entry<u64>>>, ev: Event, t: int) -> Option<u64> {
    match ev {
        Event::Initialize(_) => None,
        Event::New(_) => Some(0),
        Event::Write(_) | Event::Delete(_) => Some(offset_of(es, t)),
    }
}

/// A rename in place followed by a write: renaming a file within its
/// directory keeps its offset, and a later write reads that same file from
/// that offset and gives its lines under the new name.
pub proof fn lemma_write_after_rename(
    old: Seq<Option<Entry<u64>>>,
    new: Seq<Option<Entry<u64>>>,
    id: EntryId,
    name: Seq<char>,
)
    requires
        wf(old),
        is_file(old, id as int),
        id != 0,
        moved(old, new, id, parent_of(old, id as int).unwrap(), name),
        !under(old, parent_of(old, id as int).unwrap() as int, id as int, old.len()),
        resolve(old, id as int) is Some,
    ensures
        ({
            let d = parent_of(old, id as int).unwrap() as int;
            &&& read_target(new, Event::Write(id)) == Some(id)
            &&& read_start(new, Event::Write(id), id as int) == Some(offset_of(old, id as int))
            &&& wd_of(new, id as int) == wd_of(old, id as int)
            &&& paths_of(new, id as int) == seq![resolve(old, d).unwrap() + seq!['/'] + name]
        }),
{
    lemma_rename_resolves(old, new, id, name);
}

proof fn lemma_wf_same_shape(old: Seq<Option<Entry<u64>>>, new: Seq<Option<Entry<u64>>>)
    requires
        wf(old),
        new.len() == old.len(),
        forall|j: int|
            #![trigger new[j]]
            0 <= j < old.len() ==> (new[j] is Some) == (old[j] is Some) && (old[j] is Some ==> {
                &&& new[j].unwrap().spec_name() == old[j].unwrap().spec_name()
                &&& new[j].unwrap().spec_parent() == old[j].unwrap().spec_parent()
                &&& new[j].unwrap().spec_wd() == old[j].unwrap().spec_wd()
                &&& new[j].unwrap().spec_children() == old[j].unwrap().spec_children()
                &&& (new[j].unwrap() is Dir) == (old[j].unwrap() is Dir)
            }),
    ensures
        wf(new),
{
    assert forall|i: int| #![trigger live(new, i)] live(new, i) && i != 0 implies {
        let p = parent_of(new, i);
        &&& p is Some
        &&& p.unwrap() != i
        &&& is_dir(new, p.unwrap() as int)
        &&& children(new, p.unwrap() as int).contains(i as EntryId)
    } by {
        assert(new[i] is Some);
        assert(live(old, i));
        let p = parent_of(old, i).unwrap() as int;
        assert(new[p] is Some);
    }
    assert forall|d: int, k: int|
        #![trigger children(new, d)[k]]
        is_dir(new, d) && 0 <= k < children(new, d).len() implies {
        let c = children(new, d)[k] as int;
        &&& live(new, c)
        &&& c != 0
        &&& parent_of(new, c) == Some(d as EntryId)
    } by {
        assert(new[d] is Some);
        assert(children(old, d)[k] == children(new, d)[k]);
        assert(new[children(old, d)[k] as int] is Some);
    }
    assert forall|d: int, k1: int, k2: int|
        #![trigger children(new, d)[k1], children(new, d)[k2]]
        is_dir(new, d) && 0 <= k1 < k2 < children(new, d).len() implies name_of(
        new,
        children(new, d)[k1] as int,
    ) != name_of(new, children(new, d)[k2] as int) by {
        assert(new[d] is Some);
        assert(children(old, d)[k1] == children(new, d)[k1]);
        assert(children(old, d)[k2] == children(new, d)[k2]);
        assert(new[children(old, d)[k1] as int] is Some);
        assert(new[children(old, d)[k2] as int] is Some);
    }
    assert forall|i: int, j: int|
        #![trigger wd_of(new, i), wd_of(new, j)]
        live(new, i) && live(new, j) && i != j implies wd_of(new, i) != wd_of(new, j) by {
        assert(new[i] is Some);
        assert(new[j] is Some);
        assert(wd_of(old, i) != wd_of(old, j));
    }
    assert(new[0] is Some);
}

proof fn lemma_path_same_shape(old: Seq<Option<Entry<u64>>>, new: Seq<Option<Entry<u64>>>, i: int, f: nat)
    requires
        new.len() == old.len(),
        forall|j: int|
            #![trigger new[j]]
            0 <= j < old.len() ==> (new[j] is Some) == (old[j] is Some) && (old[j] is Some ==> {
                &&& new[j].unwrap().spec_name() == old[j].unwrap().spec_name()
                &&& new[j].unwrap().spec_parent() == old[j].unwrap().spec_parent()
            }),
    ensures
        path_of(new, i, f) == path_of(old, i, f),
    decreases f,
{
    if 0 <= i < old.len() {
        assert(new[i] is Some == old[i] is Some);
        if old[i] is Some && f > 0 {
            if let Some(p) = parent_of(old, i) {
                lemma_path_same_shape(old, new, p as int, (f - 1) as nat);
            }
        }
    }
}

/// What the tree asks its driver to do for one reconciled watch event.
#[derive(Debug, Clone, PartialEq, Eq)]
pub enum Action {
    /// Nothing concerns the tree.
    Ignore,
    /// Admit `name` under directory `parent`: the driver looks at what `path`
    /// is, watches it, and inserts it.
    Create { parent: EntryId, name: String, path: String },
    /// Entry `0` was written to.
    Write(EntryId),
    /// Entry `0` goes away: the driver reads it a last time, then removes it.
    Delete(EntryId),
    /// Entry `entry` moves, in place, under `new_parent` as `new_name`.
    Rename { entry: EntryId, new_parent: EntryId, new_name: String },
    /// Notifications were lost: the tree can no longer be trusted.
    Rescan,
}

pub enum ActionView {
    Ignore,
    Create { parent: EntryId, name: Seq<char>, path: Seq<char> },
    Write(EntryId),
    Delete(EntryId),
    Rename { entry: EntryId, new_parent: EntryId, new_name: Seq<char> },
    Rescan,
}

impl View for Action {
    type V = ActionView;

    open spec fn view(&self) -> ActionView {
        match self {
            Action::Ignore => ActionView::Ignore,
            Action::Create { parent, name, path } => ActionView::Create {
                parent: *parent,
                name: name@,
                path: path@,
            },
            Action::Write(i) => ActionView::Write(*i),
            Action::Delete(i) => ActionView::Delete(*i),
            Action::Rename { entry, new_parent, new_name } => ActionView::Rename {
                entry: *entry,
                new_parent: *new_parent,
                new_name: new_name@,
            },
            Action::Rescan => ActionView::Rescan,
        }
    }
}

/// The live entry watched by `wd`.
pub open spec fn watched_by(es: Seq<Option<Entry<u64>>>, wd: i32) -> Option<EntryId> {
    if exists|i: int| live(es, i) && wd_of(es, i) == wd {
        Some((choose|i: int| live(es, i) && wd_of(es, i) == wd) as EntryId)
    } else {
        None
    }
}

/// The child of `d` named `name`.
pub open spec fn child_named(es: Seq<Option<Entry<u64>>>, d: EntryId, name: Seq<char>) -> Option<EntryId> {
    if is_dir(es, d as int) && has_child_named(es, d as int, name) {
        Some(
            choose|c: EntryId|
                children(es, d as int).contains(c) && name_of(es, c as int) == name,
        )
    } else {
        None
    }
}

/// The entry named `name` in the directory watched by `wd`.
pub open spec fn named_in(es: Seq<Option<Entry<u64>>>, wd: i32, name: Seq<char>) -> Option<EntryId> {
    match watched_by(es, wd) {
        Some(d) => child_named(es, d, name),
        None => None,
    }
}

/// The directory watched by `wd`, and the path `name` would have in it,
/// where that path is admitted.
pub open spec fn admitted_in(
    es: Seq<Option<Entry<u64>>>,
    rules: (Seq<Seq<char>>, Seq<Seq<char>>),
    wd: i32,
    name: Seq<char>,
) -> Option<(EntryId, Seq<char>)> {
    match watched_by(es, wd) {
        Some(d) => if is_dir(es, d as int) && resolve(es, d as int) is Some && admits(
            rules.0,
            rules.1,
            resolve(es, d as int).unwrap() + seq!['/'] + name,
        ) {
            Some((d, resolve(es, d as int).unwrap() + seq!['/'] + name))
        } else {
            None
        },
        None => None,
    }
}

pub open spec fn create_action(
    es: Seq<Option<Entry<u64>>>,
    rules: (Seq<Seq<char>>, Seq<Seq<char>>),
    wd: i32,
    name: Seq<char>,
) -> ActionView {
    match admitted_in(es, rules, wd, name) {
        Some((d, path)) => if has_child_named(es, d as int, name) {
            ActionView::Ignore
        } else {
            ActionView::Create { parent: d, name, path }
        },
        None => ActionView::Ignore,
    }
}

/// What the tree makes of one reconciled watch event.
pub open spec fn action_for(
    es: Seq<Option<Entry<u64>>>,
    rules: (Seq<Seq<char>>, Seq<Seq<char>>),
    ev: WatchEventView,
) -> ActionView {
    match ev {
        WatchEventView::Modify { wd } => match watched_by(es, wd) {
            Some(i) => ActionView::Write(i),
            None => ActionView::Ignore,
        },
        WatchEventView::Create { wd, name } => create_action(es, rules, wd, name),
        WatchEventView::MovedTo { wd, name, .. } => create_action(es, rules, wd, name),
        WatchEventView::Delete { wd, name } => match named_in(es, wd, name) {
            Some(c) => ActionView::Delete(c),
            None => ActionView::Ignore,
        },
        WatchEventView::MovedFrom { wd, name, .. } => match named_in(es, wd, name) {
            Some(c) => ActionView::Delete(c),
            None => ActionView::Ignore,
        },
        WatchEventView::Move { from_wd, from_name, to_wd, to_name } => match named_in(
            es,
            from_wd,
            from_name,
        ) {
            Some(c) => match admitted_in(es, rules, to_wd, to_name) {
                Some((d, _)) => ActionView::Rename { entry: c, new_parent: d, new_name: to_name },
                None => ActionView::Delete(c),
            },
            None => create_action(es, rules, to_wd, to_name),
        },
        WatchEventView::Overflow => ActionView::Rescan,
    }
}

impl FileSystem {
    /// A tree holding only its root: the watched directory, named by its path.
    pub fn new(root: String, wd: i32) -> (r: FileSystem)
        ensures
            wf(r@),
            r@.len() == 1,
            name_of(r@, 0) == root@,
            wd_of(r@, 0) == wd,
            children(r@, 0).len() == 0,
    {
        let mut entries: Vec<Option<Entry<u64>>> = Vec::new();
        entries.push(Some(Entry::Dir { name: root, parent: None, children: Vec::new(), wd }));
        FileSystem { entries }
    }

    /// Number of positions in the arena, live or not.
    pub fn len(&self) -> (r: usize)
        ensures
            r == self@.len(),
    {
        self.entries.len()
    }

    /// The entry at `id`, where one is live.
    pub fn get(&self, id: EntryId) -> (r: Option<&Entry<u64>>)
        ensures
            live(self@, id as int) ==> r == Some(&ent(self@, id as int)),
            !live(self@, id as int) ==> r is None,
    {
        if id < self.entries.len() {
            match &self.entries[id] {
                Some(e) => Some(e),
                None => None,
            }
        } else {
            None
        }
    }

    /// The live entry with watch handle `wd`.
    pub fn lookup_wd(&self, wd: i32) -> (r: Option<EntryId>)
        ensures
            match r {
                Some(i) => live(self@, i as int) && wd_of(self@, i as int) == wd,
                None => !wd_used(self@, wd),
            },
    {
        let mut i: usize = 0;
        while i < self.entries.len()
            invariant
                i <= self@.len(),
                forall|j: int| 0 <= j < i && live(self@, j) ==> wd_of(self@, j) != wd,
            decreases self.entries.len() - i,
        {
            match &self.entries[i] {
                Some(e) => {
                    if e.watch_descriptor() == wd {
                        return Some(i);
                    }
                },
                None => {},
            }
            i += 1;
        }
        None
    }

    /// Adds a new entry named `name`, with watch handle `wd`, as the last
    /// child of directory `parent`.
    pub fn insert(&mut self, parent: EntryId, name: String, kind: NewEntry, wd: i32) -> (r: Result<
        EntryId,
        CacheError,
    >)
        requires
            wf(old(self)@),
            old(self)@.len() < usize::MAX,
        ensures
            wf(final(self)@),
            !is_dir(old(self)@, parent as int) ==> r == Err::<EntryId, CacheError>(
                CacheError::NotADirectory,
            ),
            is_dir(old(self)@, parent as int) && has_child_named(old(self)@, parent as int, name@)
                ==> r == Err::<EntryId, CacheError>(CacheError::NameTaken),
            is_dir(old(self)@, parent as int) && !has_child_named(old(self)@, parent as int, name@)
                && wd_used(old(self)@, wd) ==> r == Err::<EntryId, CacheError>(
                CacheError::WatchTaken,
            ),
            r is Err ==> final(self)@ == old(self)@,
            is_dir(old(self)@, parent as int) && !has_child_named(old(self)@, parent as int, name@)
                && !wd_used(old(self)@, wd) ==> r == Ok::<EntryId, CacheError>(
                old(self)@.len() as EntryId,
            ) && inserted(old(self)@, final(self)@, parent, name@, wd, kind),
    {
        if parent >= self.entries.len() {
            return Err(CacheError::NotADirectory);
        }
        match &self.entries[parent] {
            Some(Entry::Dir { .. }) => {},
            _ => {
                return Err(CacheError::NotADirectory);
            },
        }
        if self.child_position(parent, &name).is_some() {
            return Err(CacheError::NameTaken);
        }
        if self.lookup_wd(wd).is_some() {
            return Err(CacheError::WatchTaken);
        }
        let ghost es = self.entries@;
        let n = self.entries.len();
        let ghost kind0 = kind;
        let entry = match kind {
            NewEntry::File { file_handle } => Entry::File {
                name,
                parent,
                wd,
                data: 0,
                file_handle,
            },
            NewEntry::Dir => Entry::Dir {
                name,
                parent: Some(parent),
                children: Vec::new(),
                wd,
            },
            NewEntry::Symlink { link, rules } => Entry::Symlink { name, parent, link, wd, rules },
        };
        let mut slot: Option<Entry<u64>> = None;
        self.entries.set_and_swap(parent, &mut slot);
        let mut pe = slot.unwrap();
        pe.add_child(n);
        let mut back = Some(pe);
        self.entries.set_and_swap(parent, &mut back);
        self.entries.push(Some(entry));
        proof {
            let ns = self.entries@;
            assert(made_as(ent(ns, n as int), kind0));
            assert forall|i: int| #![trigger live(ns, i)] live(ns, i) && i != 0 implies {
                let p = parent_of(ns, i);
                &&& p is Some
                &&& p.unwrap() != i
                &&& is_dir(ns, p.unwrap() as int)
                &&& children(ns, p.unwrap() as int).contains(i as EntryId)
            } by {
                if i < n {
                    assert(live(es, i));
                    let p = parent_of(es, i).unwrap() as int;
                    if p == parent as int {
                        let k = children(es, p).index_of(i as EntryId);
                        assert(children(ns, p)[k] == i as EntryId);
                    } else {
                        assert(children(ns, p) == children(es, p));
                    }
                } else {
                    assert(children(ns, parent as int).last() == n);
                }
            }
            assert forall|d: int, k: int|
                #![trigger children(ns, d)[k]]
                is_dir(ns, d) && 0 <= k < children(ns, d).len() implies {
                let c = children(ns, d)[k] as int;
                &&& live(ns, c)
                &&& c != 0
                &&& parent_of(ns, c) == Some(d as EntryId)
            } by {
                if d == parent as int {
                    if k < children(es, d).len() {
                        assert(children(ns, d)[k] == children(es, d)[k]);
                    }
                } else if d < n {
                    assert(children(ns, d) == children(es, d));
                    assert(children(es, d)[k] < n) by {
                        assert(live(es, children(es, d)[k] as int));
                    }
                }
            }
            assert forall|d: int, k1: int, k2: int|
                #![trigger children(ns, d)[k1], children(ns, d)[k2]]
                is_dir(ns, d) && 0 <= k1 < k2 < children(ns, d).len() implies name_of(
                ns,
                children(ns, d)[k1] as int,
            ) != name_of(ns, children(ns, d)[k2] as int) by {
                if d == parent as int {
                    assert(children(ns, d)[k1] == children(es, d)[k1]);
                    assert(live(es, children(es, d)[k1] as int));
                    if k2 < children(es, d).len() {
                        assert(children(ns, d)[k2] == children(es, d)[k2]);
                        assert(live(es, children(es, d)[k2] as int));
                    }
                } else if d < n {
                    assert(children(ns, d) == children(es, d));
                    assert(live(es, children(es, d)[k1] as int));
                    assert(live(es, children(es, d)[k2] as int));
                }
            }
            assert forall|i: int, j: int|
                #![trigger wd_of(ns, i), wd_of(ns, j)]
                live(ns, i) && live(ns, j) && i != j implies wd_of(ns, i) != wd_of(ns, j) by {
                if i < n && j < n {
                    assert(wd_of(es, i) != wd_of(es, j));
                } else if i < n {
                    assert(live(es, i));
                } else {
                    assert(live(es, j));
                }
            }
        }
        Ok(n)
    }

    fn path_within(&self, i: EntryId, fuel: usize) -> (r: Option<String>)
        ensures
            opt_string_view(r) == path_of(self@, i as int, fuel as nat),
        decreases fuel,
    {
        if i >= self.entries.len() {
            return None;
        }
        match &self.entries[i] {
            None => None,
            Some(e) => match e.parent() {
                None => Some(e.name().clone()),
                Some(p) => {
                    if fuel == 0 {
                        return None;
                    }
                    match self.path_within(p, fuel - 1) {
                        Some(mut s) => {
                            proof {
                                reveal_strlit("/");
                            }
                            s.append("/");
                            s.append(e.name().as_str());
                            Some(s)
                        },
                        None => None,
                    }
                },
            },
        }
    }

    /// The logical paths entry `id` resolves to: one, or none where it is
    /// not live or cannot be walked to the root.
    pub fn resolve_valid_paths(&self, id: EntryId) -> (r: Vec<String>)
        ensures
            resolve(self@, id as int) is None ==> r@.len() == 0,
            resolve(self@, id as int) is Some ==> r@.len() == 1 && r@[0]@ == resolve(
                self@,
                id as int,
            ).unwrap(),
    {
        let mut r: Vec<String> = Vec::new();
        match self.path_within(id, self.entries.len()) {
            Some(s) => r.push(s),
            None => {},
        }
        r
    }

    /// `a` is `x` or an ancestor of it.
    fn is_under(&self, x: EntryId, a: EntryId, fuel: usize) -> (r: bool)
        ensures
            r == under(self@, x as int, a as int, fuel as nat),
        decreases fuel,
    {
        if x == a {
            return true;
        }
        if fuel == 0 || x >= self.entries.len() {
            return false;
        }
        match &self.entries[x] {
            None => false,
            Some(e) => match e.parent() {
                Some(p) => self.is_under(p, a, fuel - 1),
                None => false,
            },
        }
    }

    /// Position of `c` among the children of `dir`.
    fn position_of(&self, dir: EntryId, c: EntryId) -> (k: usize)
        requires
            wf(self@),
            is_dir(self@, dir as int),
            children(self@, dir as int).contains(c),
        ensures
            k == children(self@, dir as int).index_of(c),
            k < children(self@, dir as int).len(),
    {
        let ghost ch = children(self@, dir as int);
        match &self.entries[dir] {
            Some(Entry::Dir { children, .. }) => {
                let mut k: usize = 0;
                while k < children.len()
                    invariant
                        wf(self@),
                        is_dir(self@, dir as int),
                        ch == crate::cache::children(self@, dir as int),
                        children@ == ch,
                        ch.contains(c),
                        k <= ch.len(),
                        forall|j: int| 0 <= j < k ==> ch[j] != c,
                    decreases children.len() - k,
                {
                    if children[k] == c {
                        proof {
                            let i = ch.index_of(c);
                            assert(0 <= i < ch.len() && ch[i] == c);
                            if i != k {
                                lemma_children_distinct(self@, dir as int, i, k as int);
                            }
                        }
                        return k;
                    }
                    k += 1;
                }
                0
            },
            _ => 0,
        }
    }

    /// Moves entry `id` in place under directory `new_parent` as `new_name`,
    /// keeping its watch handle, read handle and offset.
    pub fn rename(&mut self, id: EntryId, new_parent: EntryId, new_name: String) -> (r: Result<
        (),
        CacheError,
    >)
        requires
            wf(old(self)@),
        ensures
            wf(final(self)@),
            r is Err ==> final(self)@ == old(self)@,
            !live(old(self)@, id as int) ==> r == Err::<(), CacheError>(CacheError::NotFound),
            live(old(self)@, id as int) && !is_dir(old(self)@, new_parent as int) ==> r == Err::<
                (),
                CacheError,
            >(CacheError::NotADirectory),
            live(old(self)@, id as int) && is_dir(old(self)@, new_parent as int) && id == 0 ==> r
                == Err::<(), CacheError>(CacheError::Root),
            live(old(self)@, id as int) && is_dir(old(self)@, new_parent as int) && id != 0
                && under(old(self)@, new_parent as int, id as int, old(self)@.len()) ==> r
                == Err::<(), CacheError>(CacheError::Cycle),
            live(old(self)@, id as int) && is_dir(old(self)@, new_parent as int) && id != 0
                && !under(old(self)@, new_parent as int, id as int, old(self)@.len())
                && name_taken(old(self)@, new_parent as int, new_name@, id as int) ==> r == Err::<
                (),
                CacheError,
            >(CacheError::NameTaken),
            live(old(self)@, id as int) && is_dir(old(self)@, new_parent as int) && id != 0
                && !under(old(self)@, new_parent as int, id as int, old(self)@.len())
                && !name_taken(old(self)@, new_parent as int, new_name@, id as int) ==> r
                == Ok::<(), CacheError>(()) && moved(
                old(self)@,
                final(self)@,
                id,
                new_parent,
                new_name@,
            ),
    {
        let ghost es = self.entries@;
        if id >= self.entries.len() || self.entries[id].is_none() {
            return Err(CacheError::NotFound);
        }
        if new_parent >= self.entries.len() {
            return Err(CacheError::NotADirectory);
        }
        match &self.entries[new_parent] {
            Some(Entry::Dir { .. }) => {},
            _ => {
                return Err(CacheError::NotADirectory);
            },
        }
        if id == 0 {
            return Err(CacheError::Root);
        }
        if self.is_under(new_parent, id, self.entries.len()) {
            return Err(CacheError::Cycle);
        }
        match self.child_position(new_parent, &new_name) {
            Some(k) => {
                let taken = match &self.entries[new_parent] {
                    Some(Entry::Dir { children, .. }) => children[k] != id,
                    _ => false,
                };
                if taken {
                    return Err(CacheError::NameTaken);
                }
            },
            None => {},
        }
        assert(!name_taken(es, new_parent as int, new_name@, id as int)) by {
            if name_taken(es, new_parent as int, new_name@, id as int) {
                let ch = children(es, new_parent as int);
                let k2 = choose|k: int|
                    0 <= k < ch.len() && ch[k] != id && name_of(es, ch[k] as int) == new_name@;
                let k1 = choose|k: int|
                    0 <= k < ch.len() && name_of(es, ch[k] as int) == new_name@ && ch[k] == id;
                assert(ch[k1] == id);
                if k1 < k2 {
                    assert(name_of(es, ch[k1] as int) != name_of(es, ch[k2] as int));
                } else {
                    assert(name_of(es, ch[k2] as int) != name_of(es, ch[k1] as int));
                }
            }
        }
        assert(live(es, id as int));
        let op = self.entries[id].as_ref().unwrap().parent().unwrap();
        let k = self.position_of(op, id);
        let mut slot: Option<Entry<u64>> = None;
        self.entries.set_and_swap(op, &mut slot);
        let mut pe = slot.unwrap();
        pe.remove_child_at(k);
        let mut back = Some(pe);
        self.entries.set_and_swap(op, &mut back);
        let ghost es1 = self.entries@;

        let mut slot2: Option<Entry<u64>> = None;
        self.entries.set_and_swap(id, &mut slot2);
        let mut me = slot2.unwrap();
        me.set_name(new_name);
        me.set_parent(new_parent);
        let mut back2 = Some(me);
        self.entries.set_and_swap(id, &mut back2);
        let ghost es2 = self.entries@;

        let mut slot3: Option<Entry<u64>> = None;
        self.entries.set_and_swap(new_parent, &mut slot3);
        let mut ne = slot3.unwrap();
        ne.add_child(id);
        let mut back3 = Some(ne);
        self.entries.set_and_swap(new_parent, &mut back3);
        proof {
            let ns = self.entries@;
            assert(es1 == es.update(op as int, es1[op as int]));
            assert(es2 == es1.update(id as int, es2[id as int]));
            assert(ns == es2.update(new_parent as int, ns[new_parent as int]));
            assert(moved(es, ns, id, new_parent, new_name@));
            lemma_moved_wf(es, ns, id, new_parent, new_name@);
        }
        Ok(())
    }

    /// Removes entry `id` and, where it is a directory, everything under it;
    /// gives back the watch handles of the entries it removed.
    pub fn remove(&mut self, id: EntryId) -> (r: Result<Vec<i32>, CacheError>)
        requires
            wf(old(self)@),
        ensures
            wf(final(self)@),
            r is Err ==> final(self)@ == old(self)@,
            !live(old(self)@, id as int) ==> r == Err::<Vec<i32>, CacheError>(CacheError::NotFound),
            live(old(self)@, id as int) && id == 0 ==> r == Err::<Vec<i32>, CacheError>(
                CacheError::Root,
            ),
            live(old(self)@, id as int) && id != 0 ==> r is Ok && removed(
                old(self)@,
                final(self)@,
                id,
            ),
            r matches Ok(ws) ==> forall|w: i32|
                ws@.contains(w) <==> exists|i: int|
                    live(old(self)@, i) && !live(final(self)@, i) && wd_of(old(self)@, i) == w,
    {
        if id >= self.entries.len() || self.entries[id].is_none() {
            return Err(CacheError::NotFound);
        }
        if id == 0 {
            return Err(CacheError::Root);
        }
        let ghost es = self.entries@;
        let ghost n = es.len();
        assert(live(es, id as int));
        let op = self.entries[id].as_ref().unwrap().parent().unwrap();
        let k = self.position_of(op, id);
        proof {
            lemma_rest(es, id);
        }
        let ghost rest = children(es, op as int).remove(k as int);
        let mut slot: Option<Entry<u64>> = None;
        self.entries.set_and_swap(op, &mut slot);
        let mut pe = slot.unwrap();
        pe.remove_child_at(k);
        let mut back = Some(pe);
        self.entries.set_and_swap(op, &mut back);
        let ghost es1 = self.entries@;
        assert(es1 == es.update(op as int, es1[op as int]));

        let mut stack: Vec<EntryId> = Vec::new();
        stack.push(id);
        let ghost mut deleted: Set<int> = Set::empty();
        let mut gone: Vec<i32> = Vec::new();
        proof {
            assert forall|i: int| #![trigger live(self@, i)] live(self@, i) && i != 0 implies stack@.contains(
                i as EntryId,
            ) || ({
                let p = parent_of(self@, i);
                &&& p is Some
                &&& is_dir(self@, p.unwrap() as int)
                &&& children(self@, p.unwrap() as int).contains(i as EntryId)
            }) by {
                assert(live(es, i));
                if i == id {
                    assert(stack@[0] == id);
                } else {
                    let q = parent_of(es, i).unwrap();
                    assert(is_dir(es, q as int));
                    if q == op {
                        assert(rest.contains(i as EntryId));
                    }
                }
            }
            assert forall|d: int, j: int|
                #![trigger children(self@, d)[j]]
                is_dir(self@, d) && 0 <= j < children(self@, d).len() implies {
                let c = children(self@, d)[j] as int;
                &&& live(self@, c)
                &&& c != 0
                &&& parent_of(self@, c) == Some(d as EntryId)
                &&& !stack@.contains(c as EntryId)
            } by {
                assert(is_dir(es, d));
                let c = children(self@, d)[j];
                if d == op {
                    assert(rest[j] != id && children(es, op as int).contains(rest[j]));
                    let kk = children(es, op as int).index_of(c);
                    assert(children(es, op as int)[kk] == c);
                } else {
                    assert(children(es, d)[j] == c);
                    if c == id {
                        assert(parent_of(es, id as int) == Some(d as EntryId));
                    }
                }
                if stack@.contains(c) {
                    assert(stack@[0] == c);
                }
            }
        }
        while stack.len() > 0
            invariant
                wf(es),
                n == es.len(),
                live(es, id as int),
                id != 0,
                op == parent_of(es, id as int).unwrap(),
                rest == children(es, op as int).remove(children(es, op as int).index_of(id)),
                es1.len() == n,
                forall|i: int| 0 <= i < n && i != op ==> es1[i] == es[i],
                live(es1, op as int),
                ent(es1, op as int).same_but_children(&ent(es, op as int)),
                children(es1, op as int) == rest,
                self@.len() == n,
                forall|i: int|
                    #![trigger self@[i]]
                    live(self@, i) ==> self@[i] == es1[i] && !deleted.contains(i),
                forall|i: int|
                    0 <= i < n && !live(self@, i) ==> !live(es, i) || deleted.contains(i),
                deleted.finite(),
                deleted.subset_of(set_int_range(0, n as int)),
                forall|i: int| deleted.contains(i) ==> live(es, i),
                forall|i: int| deleted.contains(i) ==> gone@.contains(#[trigger] wd_of(es, i)),
                forall|k: int|
                    0 <= k < gone@.len() ==> exists|i: int|
                        deleted.contains(i) && wd_of(es, i) == #[trigger] gone@[k],
                forall|x: int| deleted.contains(x) ==> under(es, x, id as int, deleted.len()),
                forall|j: int|
                    0 <= j < stack@.len() ==> #[trigger] stack@[j] != 0 && stack@[j] < n && under(
                        es,
                        stack@[j] as int,
                        id as int,
                        deleted.len(),
                    ),
                forall|i: int|
                    #![trigger live(self@, i)]
                    live(self@, i) && i != 0 ==> stack@.contains(i as EntryId) || ({
                        let p = parent_of(self@, i);
                        &&& p is Some
                        &&& is_dir(self@, p.unwrap() as int)
                        &&& children(self@, p.unwrap() as int).contains(i as EntryId)
                    }),
                forall|d: int, j: int|
                    #![trigger children(self@, d)[j]]
                    is_dir(self@, d) && 0 <= j < children(self@, d).len() ==> {
                        let c = children(self@, d)[j] as int;
                        &&& live(self@, c)
                        &&& c != 0
                        &&& parent_of(self@, c) == Some(d as EntryId)
                        &&& !stack@.contains(c as EntryId)
                    },
            decreases n - deleted.len(), stack@.len(),
        {
            proof {
                lemma_int_range(0, n as int);
                lemma_len_subset(deleted, set_int_range(0, n as int));
            }
            let ghost cur0 = self.entries@;
            let ghost st = stack@;
            let ghost del0 = deleted;
            let x = stack.pop().unwrap();
            let ghost s0 = stack@;
            assert(st == s0.push(x));
            assert(st[st.len() - 1] == x);
            if self.entries[x].is_some() {
                let ghost ch = children(cur0, x as int);
                let w = self.entries[x].as_ref().unwrap().watch_descriptor();
                let ghost gone0 = gone@;
                gone.push(w);
                let mut taken: Option<Entry<u64>> = None;
                self.entries.set_and_swap(x, &mut taken);
                proof {
                    assert(cur0[x as int] == es1[x as int]);
                    assert(wd_of(es1, x as int) == wd_of(es, x as int));
                    assert(live(es, x as int));
                    assert(gone@ == gone0.push(w));
                    assert forall|k: int| 0 <= k < gone@.len() implies exists|i: int|
                        deleted.insert(x as int).contains(i) && wd_of(es, i) == #[trigger] gone@[k] by {
                        if k < gone0.len() {
                            assert(gone@[k] == gone0[k]);
                            let i = choose|i: int| deleted.contains(i) && wd_of(es, i) == gone0[k];
                            assert(deleted.insert(x as int).contains(i));
                        } else {
                            assert(deleted.insert(x as int).contains(x as int));
                        }
                    }
                    assert forall|i: int| deleted.insert(x as int).contains(i) implies gone@.contains(
                        #[trigger] wd_of(es, i),
                    ) by {
                        if i == x as int {
                            assert(gone@[gone@.len() - 1] == w);
                        } else {
                            let k = gone0.index_of(wd_of(es, i));
                            assert(gone0.contains(wd_of(es, i)));
                            assert(gone@[k] == gone0[k]);
                        }
                    }
                    deleted = deleted.insert(x as int);
                    assert(!del0.contains(x as int));
                    assert(deleted.len() == del0.len() + 1);
                    lemma_int_range(0, n as int);
                    lemma_len_subset(deleted, set_int_range(0, n as int));
                }
                match taken {
                    Some(Entry::Dir { children, .. }) => {
                        let mut j: usize = 0;
                        while j < children.len()
                            invariant
                                j <= children@.len(),
                                children@ == ch,
                                stack@ == s0 + ch.take(j as int),
                            decreases children.len() - j,
                        {
                            stack.push(children[j]);
                            j += 1;
                            assert(stack@ =~= s0 + ch.take(j as int));
                        }
                        assert(ch.take(j as int) =~= ch);
                    },
                    _ => {
                        assert(ch.len() == 0);
                        assert(stack@ =~= s0 + ch);
                    },
                }
                proof {
                    let cur1 = self.entries@;
                    assert(cur1 == cur0.update(x as int, None::<Entry<u64>>));
                    let s1 = stack@;
                    assert(s1 == s0 + ch);
                    assert forall|y: int| deleted.contains(y) implies under(
                        es,
                        y,
                        id as int,
                        deleted.len(),
                    ) by {
                        if y == x {
                            assert(under(es, st[st.len() - 1] as int, id as int, del0.len()));
                            lemma_under_more_fuel(es, y, id as int, del0.len(), deleted.len());
                        } else {
                            lemma_under_more_fuel(es, y, id as int, del0.len(), deleted.len());
                        }
                    }
                    assert forall|j: int| 0 <= j < s1.len() implies #[trigger] s1[j] != 0 && s1[j]
                        < n && under(es, s1[j] as int, id as int, deleted.len()) by {
                        if j < s0.len() {
                            assert(s1[j] == st[j]);
                            lemma_under_more_fuel(
                                es,
                                s1[j] as int,
                                id as int,
                                del0.len(),
                                deleted.len(),
                            );
                        } else {
                            let c = ch[j - s0.len()];
                            assert(s1[j] == c);
                            assert(children(cur0, x as int)[j - s0.len()] == c);
                            assert(live(cur0, c as int));
                            assert(cur0[c as int] == es1[c as int]);
                            assert(live(es, c as int));
                            if c != id {
                                assert(parent_of(es, c as int) == Some(x)) by {
                                    if c != op {
                                        assert(es1[c as int] == es[c as int]);
                                    }
                                }
                                assert(under(es, x as int, id as int, del0.len()));
                            }
                        }
                    }
                    assert forall|i: int| #![trigger live(cur1, i)] live(cur1, i) && i != 0 implies s1.contains(
                        i as EntryId,
                    ) || ({
                        let p = parent_of(cur1, i);
                        &&& p is Some
                        &&& is_dir(cur1, p.unwrap() as int)
                        &&& children(cur1, p.unwrap() as int).contains(i as EntryId)
                    }) by {
                        assert(live(cur0, i));
                        assert(cur1[i] == cur0[i]);
                        if st.contains(i as EntryId) {
                            let w = st.index_of(i as EntryId);
                            assert(st[w] == i);
                            assert(w != st.len() - 1);
                            assert(s1[w] == i);
                        } else {
                            let p = parent_of(cur0, i).unwrap();
                            if p == x {
                                let w = ch.index_of(i as EntryId);
                                assert(ch[w] == i);
                                assert(s1[s0.len() + w] == i);
                            } else {
                                assert(cur1[p as int] == cur0[p as int]);
                            }
                        }
                    }
                    assert forall|d: int, j: int|
                        #![trigger children(cur1, d)[j]]
                        is_dir(cur1, d) && 0 <= j < children(cur1, d).len() implies {
                        let c = children(cur1, d)[j] as int;
                        &&& live(cur1, c)
                        &&& c != 0
                        &&& parent_of(cur1, c) == Some(d as EntryId)
                        &&& !s1.contains(c as EntryId)
                    } by {
                        assert(cur1[d] == cur0[d]);
                        let c = children(cur0, d)[j];
                        assert(!st.contains(c));
                        assert(c != x) by {
                            assert(st[st.len() - 1] == x);
                        }
                        assert(cur1[c as int] == cur0[c as int]);
                        if s1.contains(c) {
                            let w = s1.index_of(c);
                            if w < s0.len() {
                                assert(st[w] == c);
                            } else {
                                assert(ch[w - s0.len()] == c);
                                assert(children(cur0, x as int)[w - s0.len()] == c);
                            }
                        }
                    }
                }
            } else {
                proof {
                    assert forall|i: int| #![trigger live(self@, i)] live(self@, i) && i != 0 implies stack@.contains(
                        i as EntryId,
                    ) || ({
                        let p = parent_of(self@, i);
                        &&& p is Some
                        &&& is_dir(self@, p.unwrap() as int)
                        &&& children(self@, p.unwrap() as int).contains(i as EntryId)
                    }) by {
                        if st.contains(i as EntryId) {
                            let w = st.index_of(i as EntryId);
                            assert(st[w] == i);
                            assert(w != st.len() - 1);
                            assert(s0[w] == i);
                        }
                    }
                    assert forall|d: int, j: int|
                        #![trigger children(self@, d)[j]]
                        is_dir(self@, d) && 0 <= j < children(self@, d).len() implies !stack@.contains(
                        children(self@, d)[j],
                    ) by {
                        let c = children(self@, d)[j];
                        if s0.contains(c) {
                            let w = s0.index_of(c);
                            assert(st[w] == c);
                        }
                    }
                    assert forall|j: int| 0 <= j < s0.len() implies #[trigger] s0[j] != 0 && s0[j]
                        < n && under(es, s0[j] as int, id as int, deleted.len()) by {
                        assert(s0[j] == st[j]);
                    }
                }
            }
        }
        proof {
            let ns = self.entries@;
            lemma_int_range(0, n as int);
            lemma_len_subset(deleted, set_int_range(0, n as int));
            assert(!live(ns, id as int)) by {
                if live(ns, id as int) {
                    assert(stack@.len() == 0);
                }
            }
            assert(live(ns, 0)) by {
                if !live(ns, 0) {
                    assert(deleted.contains(0));
                    assert(under(es, 0, id as int, deleted.len()));
                }
            }
            assert forall|d: int, k1: int, k2: int|
                #![trigger children(ns, d)[k1], children(ns, d)[k2]]
                is_dir(ns, d) && 0 <= k1 < k2 < children(ns, d).len() implies name_of(
                ns,
                children(ns, d)[k1] as int,
            ) != name_of(ns, children(ns, d)[k2] as int) by {
                let c1 = children(ns, d)[k1] as int;
                let c2 = children(ns, d)[k2] as int;
                assert(ns[c1] == es1[c1]);
                assert(ns[c2] == es1[c2]);
                if d == op {
                    assert(rest[k1] == c1 && rest[k2] == c2);
                    if c1 == op {
                        assert(name_of(es1, c1) == name_of(es, c1));
                    }
                    if c2 == op {
                        assert(name_of(es1, c2) == name_of(es, c2));
                    }
                } else {
                    assert(ns[d] == es1[d]);
                    assert(es1[d] == es[d]);
                    assert(children(es, d)[k1] == c1);
                    assert(children(es, d)[k2] == c2);
                    assert(name_of(es, c1) != name_of(es, c2));
                    if c1 == op {
                        assert(name_of(es1, c1) == name_of(es, c1));
                    } else {
                        assert(es1[c1] == es[c1]);
                    }
                    if c2 == op {
                        assert(name_of(es1, c2) == name_of(es, c2));
                    } else {
                        assert(es1[c2] == es[c2]);
                    }
                }
            }
            assert forall|i: int, j: int|
                #![trigger wd_of(ns, i), wd_of(ns, j)]
                live(ns, i) && live(ns, j) && i != j implies wd_of(ns, i) != wd_of(ns, j) by {
                assert(ns[i] == es1[i] && ns[j] == es1[j]);
                assert(wd_of(es1, i) == wd_of(es, i));
                assert(wd_of(es1, j) == wd_of(es, j));
            }
            assert forall|i: int| #![trigger live(ns, i)] live(ns, i) && i != 0 implies {
                let p = parent_of(ns, i);
                &&& p is Some
                &&& p.unwrap() != i
                &&& is_dir(ns, p.unwrap() as int)
                &&& children(ns, p.unwrap() as int).contains(i as EntryId)
            } by {
                assert(ns[i] == es1[i]);
                assert(parent_of(es1, i) == parent_of(es, i));
                assert(live(es, i));
                assert(stack@.len() == 0);
                assert(!stack@.contains(i as EntryId));
            }
            assert(wf(ns));
            assert forall|j: int| #[trigger] live(ns, j) implies live(es, j) && parent_of(ns, j)
                == parent_of(es, j) by {
                assert(ns[j] == es1[j]);
                assert(parent_of(es1, j) == parent_of(es, j));
            }
            assert forall|i: int| #![trigger live(es, i)] live(es, i) implies (live(ns, i)
                <==> !under(es, i, id as int, es.len())) by {
                if live(ns, i) {
                    lemma_survivor_not_under(es, ns, id as int, i, es.len());
                } else {
                    assert(deleted.contains(i));
                    lemma_under_more_fuel(es, i, id as int, deleted.len(), es.len());
                }
            }
            assert forall|i: int| live(ns, i) && i != op implies ns[i] == es[i] by {
                assert(ns[i] == es1[i]);
            }
            assert forall|w: i32| gone@.contains(w) <==> exists|i: int|
                live(es, i) && !live(ns, i) && wd_of(es, i) == w by {
                if gone@.contains(w) {
                    let k = gone@.index_of(w);
                    assert(gone@[k] == w);
                    let i = choose|i: int| deleted.contains(i) && wd_of(es, i) == gone@[k];
                    assert(live(es, i) && !live(ns, i) && wd_of(es, i) == w);
                }
                if exists|i: int| live(es, i) && !live(ns, i) && wd_of(es, i) == w {
                    let i = choose|i: int| live(es, i) && !live(ns, i) && wd_of(es, i) == w;
                    assert(deleted.contains(i));
                }
            }
        }
        Ok(gone)
    }

    /// The read offset of file `id`.
    pub fn offset(&self, id: EntryId) -> (r: Option<u64>)
        ensures
            is_file(self@, id as int) ==> r == Some(offset_of(self@, id as int)),
            !is_file(self@, id as int) ==> r is None,
    {
        if id >= self.entries.len() {
            return None;
        }
        match &self.entries[id] {
            Some(Entry::File { data, .. }) => Some(*data),
            _ => None,
        }
    }

    /// Sets the read offset of file `id` to `v`; anything but a file is left
    /// as it is.
    pub fn set_offset(&mut self, id: EntryId, v: u64)
        requires
            wf(old(self)@),
        ensures
            wf(final(self)@),
            is_file(old(self)@, id as int) ==> with_offset(old(self)@, final(self)@, id as int, v),
            !is_file(old(self)@, id as int) ==> final(self)@ == old(self)@,
            forall|i: int| #[trigger] resolve(final(self)@, i) == resolve(old(self)@, i),
    {
        if id >= self.entries.len() {
            return;
        }
        match &self.entries[id] {
            Some(Entry::File { .. }) => {},
            _ => {
                return;
            },
        }
        let ghost es = self.entries@;
        let mut slot: Option<Entry<u64>> = None;
        self.entries.set_and_swap(id, &mut slot);
        let mut back = match slot {
            Some(Entry::File { name, parent, wd, data: _, file_handle }) => Some(
                Entry::File { name, parent, wd, data: v, file_handle },
            ),
            other => other,
        };
        self.entries.set_and_swap(id, &mut back);
        proof {
            let ns = self.entries@;
            assert(ns == es.update(id as int, ns[id as int]));
            lemma_wf_same_shape(es, ns);
            assert forall|i: int| #[trigger] resolve(ns, i) == resolve(es, i) by {
                lemma_path_same_shape(es, ns, i, es.len());
            }
        }
    }

    /// The file that `event` reads and where its read starts (none for a
    /// file seen at startup, which is not read).
    pub fn read_plan(&self, event: Event) -> (r: Option<(EntryId, Option<u64>)>)
        ensures
            match read_target(self@, event) {
                None => r is None,
                Some(t) => r == Some((t, read_start(self@, event, t as int))),
            },
    {
        let t = match self.read_target(event) {
            Some(t) => t,
            None => {
                return None;
            },
        };
        let start = match event {
            Event::Initialize(_) => None,
            Event::New(_) => Some(0),
            Event::Write(_) | Event::Delete(_) => self.offset(t),
        };
        Some((t, start))
    }

    /// The first entry that resolves to `path`.
    pub fn lookup(&self, path: &String) -> (r: Option<EntryId>)
        ensures
            match r {
                Some(i) => entry_at(self@, path@) == Some(i as int),
                None => entry_at(self@, path@) is None,
            },
    {
        let mut i: usize = 0;
        while i < self.entries.len()
            invariant
                i <= self@.len(),
                forall|j: int| 0 <= j < i ==> resolve(self@, j) != Some(path@),
            decreases self.entries.len() - i,
        {
            match self.path_within(i, self.entries.len()) {
                Some(p) => {
                    if p.eq(path) {
                        proof {
                            assert(is_first_at(self@, path@, i as int));
                            let k = choose|k: int| is_first_at(self@, path@, k);
                            if k > i {
                                assert(resolve(self@, i as int) == Some(path@));
                            }
                        }
                        return Some(i);
                    }
                },
                None => {},
            }
            i += 1;
        }
        None
    }

    /// The file whose content `event` asks to read.
    pub fn read_target(&self, event: Event) -> (r: Option<EntryId>)
        ensures
            r == read_target(self@, event),
            r matches Some(t) ==> is_file(self@, t as int),
    {
        match event {
            Event::Initialize(id) => match self.offset(id) {
                Some(_) => Some(id),
                None => None,
            },
            Event::New(id) | Event::Write(id) => {
                if self.path_within(id, self.entries.len()).is_none() {
                    return None;
                }
                match self.offset(id) {
                    Some(_) => Some(id),
                    None => None,
                }
            },
            Event::Delete(id) => {
                if self.path_within(id, self.entries.len()).is_none() {
                    return None;
                }
                if id >= self.entries.len() {
                    return None;
                }
                match &self.entries[id] {
                    Some(Entry::File { .. }) => Some(id),
                    Some(Entry::Symlink { link, .. }) => match self.lookup(link) {
                        Some(t) => match self.offset(t) {
                            Some(_) => Some(t),
                            None => None,
                        },
                        None => None,
                    },
                    _ => None,
                }
            },
        }
    }

    fn watched(&self, wd: i32) -> (r: Option<EntryId>)
        requires
            wf(self@),
        ensures
            r == watched_by(self@, wd),
    {
        let r = self.lookup_wd(wd);
        proof {
            if let Some(i) = r {
                let k = choose|k: int| live(self@, k) && wd_of(self@, k) == wd;
                if k != i {
                    assert(wd_of(self@, k) != wd_of(self@, i as int));
                }
            }
        }
        r
    }

    fn named(&self, wd: i32, name: &String) -> (r: Option<EntryId>)
        requires
            wf(self@),
        ensures
            r == named_in(self@, wd, name@),
    {
        match self.watched(wd) {
            Some(d) => {
                let r = self.find_child(d, name);
                proof {
                    if let Some(c) = r {
                        let c2 = choose|c2: EntryId|
                            children(self@, d as int).contains(c2) && name_of(self@, c2 as int)
                                == name@;
                        let ch = children(self@, d as int);
                        let k1 = ch.index_of(c);
                        let k2 = ch.index_of(c2);
                        assert(ch[k1] == c && ch[k2] == c2);
                        if k1 < k2 {
                            assert(name_of(self@, ch[k1] as int) != name_of(self@, ch[k2] as int));
                        } else if k2 < k1 {
                            assert(name_of(self@, ch[k2] as int) != name_of(self@, ch[k1] as int));
                        }
                    } else if is_dir(self@, d as int) {
                    }
                }
                r
            },
            None => None,
        }
    }

    fn admitted(&self, rules: &Rules, wd: i32, name: &String) -> (r: Option<(EntryId, String)>)
        requires
            wf(self@),
        ensures
            match r {
                Some((d, p)) => admitted_in(self@, rules@, wd, name@) == Some((d, p@)),
                None => admitted_in(self@, rules@, wd, name@) is None,
            },
    {
        let d = match self.watched(wd) {
            Some(d) => d,
            None => {
                return None;
            },
        };
        match &self.entries[d] {
            Some(Entry::Dir { .. }) => {},
            _ => {
                return None;
            },
        }
        let mut path = match self.path_within(d, self.entries.len()) {
            Some(p) => p,
            None => {
                return None;
            },
        };
        let ghost base = path@;
        proof {
            reveal_strlit("/");
        }
        path.append("/");
        path.append(name.as_str());
        assert(path@ =~= base + seq!['/'] + name@);
        if rules.passes(&path) {
            Some((d, path))
        } else {
            None
        }
    }

    fn create_for(&self, rules: &Rules, wd: i32, name: &String) -> (r: Action)
        requires
            wf(self@),
        ensures
            r@ == create_action(self@, rules@, wd, name@),
    {
        match self.admitted(rules, wd, name) {
            Some((d, path)) => {
                if self.child_position(d, name).is_some() {
                    Action::Ignore
                } else {
                    Action::Create { parent: d, name: name.clone(), path }
                }
            },
            None => Action::Ignore,
        }
    }

    /// What the tree makes of a reconciled watch event: creations under an
    /// admitted path of a watched directory, writes to a watched entry,
    /// deletions of a known child, renames in place where both ends are known
    /// (a delete where the new end is not, a creation where the old end is
    /// not), and a rescan when notifications were lost.
    pub fn action_for(&self, rules: &Rules, ev: &WatchEvent) -> (r: Action)
        requires
            wf(self@),
        ensures
            r@ == action_for(self@, rules@, ev@),
    {
        match ev {
            WatchEvent::Modify { wd } => match self.watched(*wd) {
                Some(i) => Action::Write(i),
                None => Action::Ignore,
            },
            WatchEvent::Create { wd, name } => self.create_for(rules, *wd, name),
            WatchEvent::MovedTo { wd, name, .. } => self.create_for(rules, *wd, name),
            WatchEvent::Delete { wd, name } => match self.named(*wd, name) {
                Some(c) => Action::Delete(c),
                None => Action::Ignore,
            },
            WatchEvent::MovedFrom { wd, name, .. } => match self.named(*wd, name) {
                Some(c) => Action::Delete(c),
                None => Action::Ignore,
            },
            WatchEvent::Move { from_wd, from_name, to_wd, to_name } => match self.named(
                *from_wd,
                from_name,
            ) {
                Some(c) => match self.admitted(rules, *to_wd, to_name) {
                    Some((d, _)) => Action::Rename {
                        entry: c,
                        new_parent: d,
                        new_name: to_name.clone(),
                    },
                    None => Action::Delete(c),
                },
                None => self.create_for(rules, *to_wd, to_name),
            },
            WatchEvent::Overflow => Action::Rescan,
        }
    }

    /// The child of directory `dir` named `name`.
    pub fn find_child(&self, dir: EntryId, name: &String) -> (r: Option<EntryId>)
        requires
            wf(self@),
        ensures
            !is_dir(self@, dir as int) ==> r is None,
            is_dir(self@, dir as int) ==> match r {
                Some(c) => children(self@, dir as int).contains(c) && name_of(self@, c as int)
                    == name@,
                None => !has_child_named(self@, dir as int, name@),
            },
    {
        match self.child_position(dir, name) {
            Some(k) => {
                let d = self.get(dir).unwrap();
                match d {
                    Entry::Dir { children, .. } => Some(children[k]),
                    _ => None,
                }
            },
            None => None,
        }
    }

    /// Position, among the children of `dir`, of the one named `name`.
    fn child_position(&self, dir: EntryId, name: &String) -> (r: Option<usize>)
        requires
            wf(self@),
        ensures
            !is_dir(self@, dir as int) ==> r is None,
            is_dir(self@, dir as int) ==> match r {
                Some(k) => k < children(self@, dir as int).len() && name_of(
                    self@,
                    children(self@, dir as int)[k as int] as int,
                ) == name@,
                None => !has_child_named(self@, dir as int, name@),
            },
    {
        let es = &self.entries;
        if dir >= es.len() {
            return None;
        }
        match &es[dir] {
            Some(Entry::Dir { children, .. }) => {
                let mut k: usize = 0;
                while k < children.len()
                    invariant
                        wf(self@),
                        is_dir(self@, dir as int),
                        children@ == crate::cache::children(self@, dir as int),
                        k <= children@.len(),
                        forall|j: int|
                            0 <= j < k ==> name_of(self@, children@[j] as int) != name@,
                    decreases children.len() - k,
                {
                    let c = children[k];
                    assert(live(self@, c as int));
                    let e = self.entries[c].as_ref().unwrap();
                    if e.name().eq(name) {
                        return Some(k);
                    }
                    k += 1;
                }
                None
            },
            _ => None,
        }
    }
}

} // verus!
