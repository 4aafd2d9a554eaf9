//! Turns raw per-watch change notifications into reconciled watch events,
//! pairing the two halves of a rename by their cookie within a grace window.
use vstd::prelude::*;

verus! {

/// How long, in milliseconds, one half of a rename waits for the other.
pub const GRACE_PERIOD_MS: u64 = 1000;

/// Notification mask bits, as the kernel's inotify interface defines them.
pub const MASK_MODIFY: u32 = 0x2;

pub const MASK_MOVED_FROM: u32 = 0x40;

pub const MASK_MOVED_TO: u32 = 0x80;

pub const MASK_CREATE: u32 = 0x100;

pub const MASK_DELETE: u32 = 0x200;

pub const MASK_Q_OVERFLOW: u32 = 0x4000;

pub const MASK_DONT_FOLLOW: u32 = 0x0200_0000;

/// What to be told of a watched path: writes for a file; creations,
/// deletions and renames of children for a directory; never through a
/// symbolic link.
pub fn watch_mask(is_file: bool) -> (r: u32)
    ensures
        is_file ==> r == MASK_MODIFY | MASK_DONT_FOLLOW,
        !is_file ==> r == MASK_CREATE | MASK_DELETE | MASK_DONT_FOLLOW | MASK_MOVED_TO
            | MASK_MOVED_FROM,
{
    if is_file {
        MASK_MODIFY | MASK_DONT_FOLLOW
    } else {
        MASK_CREATE | MASK_DELETE | MASK_DONT_FOLLOW | MASK_MOVED_TO | MASK_MOVED_FROM
    }
}

/// One raw notification: the watch it came from, its mask, the rename cookie
/// and the name of the child concerned (empty where there is none).
#[derive(Debug, Clone, PartialEq, Eq)]
pub struct RawEvent {
    pub wd: i32,
    pub mask: u32,
    pub cookie: u32,
    pub name: String,
}

pub struct RawEventView {
    pub wd: i32,
    pub mask: u32,
    pub cookie: u32,
    pub name: Seq<char>,
}

impl View for RawEvent {
    type V = RawEventView;

    open spec fn view(&self) -> RawEventView {
        RawEventView { wd: self.wd, mask: self.mask, cookie: self.cookie, name: self.name@ }
    }
}

/// A reconciled watch event.
#[derive(Debug, Clone, PartialEq, Eq)]
pub enum WatchEvent {
    Create { wd: i32, name: String },
    Modify { wd: i32 },
    Delete { wd: i32, name: String },
    Move { from_wd: i32, from_name: String, to_wd: i32, to_name: String },
    MovedFrom { wd: i32, name: String, cookie: u32 },
    MovedTo { wd: i32, name: String, cookie: u32 },
    Overflow,
}

pub enum WatchEventView {
    Create { wd: i32, name: Seq<char> },
    Modify { wd: i32 },
    Delete { wd: i32, name: Seq<char> },
    Move { from_wd: i32, from_name: Seq<char>, to_wd: i32, to_name: Seq<char> },
    MovedFrom { wd: i32, name: Seq<char>, cookie: u32 },
    MovedTo { wd: i32, name: Seq<char>, cookie: u32 },
    Overflow,
}

impl View for WatchEvent {
    type V = WatchEventView;

    open spec fn view(&self) -> WatchEventView {
        match self {
            WatchEvent::Create { wd, name } => WatchEventView::Create { wd: *wd, name: name@ },
            WatchEvent::Modify { wd } => WatchEventView::Modify { wd: *wd },
            WatchEvent::Delete { wd, name } => WatchEventView::Delete { wd: *wd, name: name@ },
            WatchEvent::Move { from_wd, from_name, to_wd, to_name } => WatchEventView::Move {
                from_wd: *from_wd,
                from_name: from_name@,
                to_wd: *to_wd,
                to_name: to_name@,
            },
            WatchEvent::MovedFrom { wd, name, cookie } => WatchEventView::MovedFrom {
                wd: *wd,
                name: name@,
                cookie: *cookie,
            },
            WatchEvent::MovedTo { wd, name, cookie } => WatchEventView::MovedTo {
                wd: *wd,
                name: name@,
                cookie: *cookie,
            },
            WatchEvent::Overflow => WatchEventView::Overflow,
        }
    }
}

/// Half of a rename waiting for its other half, with its arrival time.
pub struct Pending {
    pub at: u64,
    pub wd: i32,
    pub name: String,
    pub cookie: u32,
}

pub struct PendingView {
    pub at: u64,
    pub wd: i32,
    pub name: Seq<char>,
    pub cookie: u32,
}

impl View for Pending {
    type V = PendingView;

    open spec fn view(&self) -> PendingView {
        PendingView { at: self.at, wd: self.wd, name: self.name@, cookie: self.cookie }
    }
}

impl Pending {
    fn copy(&self) -> (r: Pending)
        ensures
            r@ == self@,
    {
        Pending { at: self.at, wd: self.wd, name: self.name.clone(), cookie: self.cookie }
    }
}

pub open spec fn pendings_view(s: Seq<Pending>) -> Seq<PendingView> {
    s.map_values(|p: Pending| p@)
}

pub open spec fn option_view(e: Option<WatchEvent>) -> Option<WatchEventView> {
    match e {
        Some(e) => Some(e@),
        None => None,
    }
}

pub open spec fn events_view(s: Seq<WatchEvent>) -> Seq<WatchEventView> {
    s.map_values(|e: WatchEvent| e@)
}

/// The unpaired halves of renames: moved-from and moved-to, each in order of
/// arrival.
pub struct Reconciler {
    moved_from: Vec<Pending>,
    moved_to: Vec<Pending>,
}

pub struct ReconcilerView {
    pub moved_from: Seq<PendingView>,
    pub moved_to: Seq<PendingView>,
}

impl View for Reconciler {
    type V = ReconcilerView;

    closed spec fn view(&self) -> ReconcilerView {
        ReconcilerView {
            moved_from: pendings_view(self.moved_from@),
            moved_to: pendings_view(self.moved_to@),
        }
    }
}

/// `mask` holds every bit of `bit`.
pub open spec fn has_bits(mask: u32, bit: u32) -> bool {
    mask & bit == bit
}

/// Half `p` can still pair, at `now`, with another half of cookie `c`: it
/// has that cookie and its grace window has not passed.
pub open spec fn pairs_with(p: PendingView, c: u32, now: u64) -> bool {
    p.cookie == c && !expired(p, now)
}

/// `i` is the first position in `s` whose half can pair with cookie `c` at
/// `now`.
pub open spec fn is_first_cookie(s: Seq<PendingView>, c: u32, now: u64, i: int) -> bool {
    &&& 0 <= i < s.len()
    &&& pairs_with(s[i], c, now)
    &&& forall|j: int| 0 <= j < i ==> !pairs_with(s[j], c, now)
}

/// The first position in `s` whose half can pair with cookie `c` at `now`,
/// or -1.
pub open spec fn cookie_index(s: Seq<PendingView>, c: u32, now: u64) -> int {
    if exists|i: int| is_first_cookie(s, c, now, i) {
        choose|i: int| is_first_cookie(s, c, now, i)
    } else {
        -1
    }
}

pub open spec fn half(e: RawEventView, now: u64) -> PendingView {
    PendingView { at: now, wd: e.wd, name: e.name, cookie: e.cookie }
}

/// What one raw notification arriving at `now` does to the pending halves,
/// and the event it yields, if any. A rename half pairs only with a pending
/// half whose grace window has not passed; an older one waits for the next
/// heartbeat to be given out unpaired.
pub open spec fn step(s: ReconcilerView, e: RawEventView, now: u64) -> (
    ReconcilerView,
    Option<WatchEventView>,
) {
    if has_bits(e.mask, MASK_MOVED_FROM) {
        let i = cookie_index(s.moved_to, e.cookie, now);
        if i >= 0 {
            (
                ReconcilerView { moved_from: s.moved_from, moved_to: s.moved_to.remove(i) },
                Some(
                    WatchEventView::Move {
                        from_wd: e.wd,
                        from_name: e.name,
                        to_wd: s.moved_to[i].wd,
                        to_name: s.moved_to[i].name,
                    },
                ),
            )
        } else {
            (
                ReconcilerView { moved_from: s.moved_from.push(half(e, now)), moved_to: s.moved_to },
                None,
            )
        }
    } else if has_bits(e.mask, MASK_MOVED_TO) {
        let i = cookie_index(s.moved_from, e.cookie, now);
        if i >= 0 {
            (
                ReconcilerView { moved_from: s.moved_from.remove(i), moved_to: s.moved_to },
                Some(
                    WatchEventView::Move {
                        from_wd: s.moved_from[i].wd,
                        from_name: s.moved_from[i].name,
                        to_wd: e.wd,
                        to_name: e.name,
                    },
                ),
            )
        } else {
            (
                ReconcilerView { moved_from: s.moved_from, moved_to: s.moved_to.push(half(e, now)) },
                None,
            )
        }
    } else if has_bits(e.mask, MASK_CREATE) {
        (s, Some(WatchEventView::Create { wd: e.wd, name: e.name }))
    } else if has_bits(e.mask, MASK_DELETE) {
        (s, Some(WatchEventView::Delete { wd: e.wd, name: e.name }))
    } else if has_bits(e.mask, MASK_MODIFY) {
        (s, Some(WatchEventView::Modify { wd: e.wd }))
    } else if has_bits(e.mask, MASK_Q_OVERFLOW) {
        (s, Some(WatchEventView::Overflow))
    } else {
        (s, None)
    }
}

/// A half that arrived at `p.at` has outlived the grace window at `now`.
pub open spec fn expired(p: PendingView, now: u64) -> bool {
    p.at + GRACE_PERIOD_MS < now
}

/// The halves of `s` still within the grace window, in order.
pub open spec fn kept(s: Seq<PendingView>, now: u64) -> Seq<PendingView>
    decreases s.len(),
{
    if s.len() == 0 {
        seq![]
    } else if expired(s.last(), now) {
        kept(s.drop_last(), now)
    } else {
        kept(s.drop_last(), now).push(s.last())
    }
}

/// The unpaired event a half stands for.
pub open spec fn unpaired(p: PendingView, is_moved_to: bool) -> WatchEventView {
    if is_moved_to {
        WatchEventView::MovedTo { wd: p.wd, name: p.name, cookie: p.cookie }
    } else {
        WatchEventView::MovedFrom { wd: p.wd, name: p.name, cookie: p.cookie }
    }
}

/// The expired halves of `s` as unpaired events, in order.
pub open spec fn flushed(s: Seq<PendingView>, now: u64, is_moved_to: bool) -> Seq<WatchEventView>
    decreases s.len(),
{
    if s.len() == 0 {
        seq![]
    } else if expired(s.last(), now) {
        flushed(s.drop_last(), now, is_moved_to).push(unpaired(s.last(), is_moved_to))
    } else {
        flushed(s.drop_last(), now, is_moved_to)
    }
}

/// What a heartbeat at `now` does: expired moved-to halves, then expired
/// moved-from halves, are given out unpaired; the others stay.
pub open spec fn tick(s: ReconcilerView, now: u64) -> (ReconcilerView, Seq<WatchEventView>) {
    (
        ReconcilerView { moved_from: kept(s.moved_from, now), moved_to: kept(s.moved_to, now) },
        flushed(s.moved_to, now, true) + flushed(s.moved_from, now, false),
    )
}

/// No half in `s` carries cookie `c`.
pub open spec fn no_cookie(s: Seq<PendingView>, c: u32) -> bool {
    forall|i: int| 0 <= i < s.len() ==> s[i].cookie != c
}

/// `e` is an unpaired rename half with cookie `c`.
pub open spec fn is_half_of(e: WatchEventView, c: u32) -> bool {
    match e {
        WatchEventView::MovedFrom { cookie, .. } => cookie == c,
        WatchEventView::MovedTo { cookie, .. } => cookie == c,
        _ => false,
    }
}

proof fn lemma_push_fresh(s: Seq<PendingView>, p: PendingView, now: u64, is_moved_to: bool)
    requires
        !expired(p, now),
    ensures
        kept(s.push(p), now) == kept(s, now).push(p),
        flushed(s.push(p), now, is_moved_to) == flushed(s, now, is_moved_to),
{
    assert(s.push(p).drop_last() =~= s);
}

proof fn lemma_push_expired(s: Seq<PendingView>, p: PendingView, now: u64, is_moved_to: bool)
    requires
        expired(p, now),
    ensures
        kept(s.push(p), now) == kept(s, now),
        flushed(s.push(p), now, is_moved_to) == flushed(s, now, is_moved_to).push(
            unpaired(p, is_moved_to),
        ),
{
    assert(s.push(p).drop_last() =~= s);
}

proof fn lemma_no_cookie_survives(s: Seq<PendingView>, c: u32, now: u64, is_moved_to: bool)
    requires
        no_cookie(s, c),
    ensures
        no_cookie(kept(s, now), c),
        forall|k: int|
            0 <= k < flushed(s, now, is_moved_to).len() ==> !is_half_of(
                #[trigger] flushed(s, now, is_moved_to)[k],
                c,
            ),
    decreases s.len(),
{
    if s.len() > 0 {
        let t = s.drop_last();
        assert(s.last() == s[s.len() - 1]);
        lemma_no_cookie_survives(t, c, now, is_moved_to);
        assert(t.push(s.last()) =~= s);
        if expired(s.last(), now) {
            lemma_push_expired(t, s.last(), now, is_moved_to);
        } else {
            lemma_push_fresh(t, s.last(), now, is_moved_to);
        }
    }
}

proof fn lemma_cookie_absent(s: Seq<PendingView>, c: u32, now: u64)
    requires
        forall|i: int| 0 <= i < s.len() ==> !pairs_with(s[i], c, now),
    ensures
        cookie_index(s, c, now) == -1,
{
}

proof fn lemma_cookie_at_end(s: Seq<PendingView>, p: PendingView, c: u32, now: u64)
    requires
        no_cookie(s, c),
        pairs_with(p, c, now),
    ensures
        cookie_index(s.push(p), c, now) == s.len(),
{
    let v = s.push(p);
    assert(is_first_cookie(v, c, now, s.len() as int));
    let k = choose|k: int| is_first_cookie(v, c, now, k);
    if k < s.len() {
        assert(v[k] == s[k]);
    }
}

/// Rename pairing inside the grace window: a moved-from half, then a
/// heartbeat, then the moved-to half with the same cookie, both of them
/// within the first half's grace window, make exactly one `Move` and no
/// unpaired half of that cookie, and leave nothing of it pending.
pub proof fn lemma_rename_pairs_within_grace(
    s: ReconcilerView,
    from: RawEventView,
    to: RawEventView,
    t1: u64,
    t: u64,
    t2: u64,
)
    requires
        no_cookie(s.moved_from, from.cookie),
        no_cookie(s.moved_to, from.cookie),
        has_bits(from.mask, MASK_MOVED_FROM),
        !has_bits(to.mask, MASK_MOVED_FROM),
        has_bits(to.mask, MASK_MOVED_TO),
        to.cookie == from.cookie,
        t <= t2,
        t2 <= t1 + GRACE_PERIOD_MS,
    ensures
        ({
            let (s1, e1) = step(s, from, t1);
            let (s2, out) = tick(s1, t);
            let (s3, e3) = step(s2, to, t2);
            &&& e1 == None::<WatchEventView>
            &&& forall|k: int| 0 <= k < out.len() ==> !is_half_of(#[trigger] out[k], from.cookie)
            &&& e3 == Some(
                WatchEventView::Move {
                    from_wd: from.wd,
                    from_name: from.name,
                    to_wd: to.wd,
                    to_name: to.name,
                },
            )
            &&& s3 == tick(s, t).0
        }),
{
    let c = from.cookie;
    let h = half(from, t1);
    lemma_cookie_absent(s.moved_to, c, t1);
    let (s1, e1) = step(s, from, t1);
    assert(s1.moved_from == s.moved_from.push(h));
    lemma_push_fresh(s.moved_from, h, t, false);
    lemma_no_cookie_survives(s.moved_from, c, t, false);
    lemma_no_cookie_survives(s.moved_to, c, t, true);
    let (s2, out) = tick(s1, t);
    let a = flushed(s.moved_to, t, true);
    let b = flushed(s.moved_from, t, false);
    assert forall|k: int| 0 <= k < out.len() implies !is_half_of(#[trigger] out[k], c) by {
        if k < a.len() {
            assert(out[k] == a[k]);
        } else {
            assert(out[k] == b[k - a.len()]);
        }
    }
    lemma_cookie_at_end(kept(s.moved_from, t), h, c, t2);
    let (s3, e3) = step(s2, to, t2);
    assert(s3.moved_from =~= kept(s.moved_from, t));
}

/// Rename halves split by the grace window: a moved-to half that arrives
/// after the grace window of the moved-from half with the same cookie does
/// not pair with it, whether or not a heartbeat came in between; both wait,
/// and a heartbeat after the second one's window gives both out unpaired:
/// two independent events, no `Move`, nothing of that cookie left pending.
pub proof fn lemma_rename_splits_beyond_grace(
    s: ReconcilerView,
    from: RawEventView,
    to: RawEventView,
    t1: u64,
    t2: u64,
    t3: u64,
)
    requires
        no_cookie(s.moved_from, from.cookie),
        no_cookie(s.moved_to, from.cookie),
        has_bits(from.mask, MASK_MOVED_FROM),
        !has_bits(to.mask, MASK_MOVED_FROM),
        has_bits(to.mask, MASK_MOVED_TO),
        to.cookie == from.cookie,
        t2 > t1 + GRACE_PERIOD_MS,
        t3 > t2 + GRACE_PERIOD_MS,
    ensures
        ({
            let (s1, e1) = step(s, from, t1);
            let (s2, e2) = step(s1, to, t2);
            let (s3, out) = tick(s2, t3);
            &&& e1 == None::<WatchEventView>
            &&& e2 == None::<WatchEventView>
            &&& exists|k: int|
                0 <= k < out.len() && out[k] == WatchEventView::MovedFrom {
                    wd: from.wd,
                    name: from.name,
                    cookie: from.cookie,
                }
            &&& exists|k: int|
                0 <= k < out.len() && out[k] == WatchEventView::MovedTo {
                    wd: to.wd,
                    name: to.name,
                    cookie: to.cookie,
                }
            &&& no_cookie(s3.moved_from, from.cookie)
            &&& no_cookie(s3.moved_to, from.cookie)
        }),
{
    let c = from.cookie;
    let h = half(from, t1);
    let g = half(to, t2);
    lemma_cookie_absent(s.moved_to, c, t1);
    let (s1, e1) = step(s, from, t1);
    assert(s1.moved_from == s.moved_from.push(h));
    assert forall|i: int| 0 <= i < s1.moved_from.len() implies !pairs_with(
        s1.moved_from[i],
        c,
        t2,
    ) by {
        if i < s.moved_from.len() {
            assert(s1.moved_from[i] == s.moved_from[i]);
        }
    }
    lemma_cookie_absent(s1.moved_from, c, t2);
    let (s2, e2) = step(s1, to, t2);
    assert(s2.moved_to == s.moved_to.push(g));
    lemma_push_expired(s.moved_to, g, t3, true);
    lemma_push_expired(s.moved_from, h, t3, false);
    lemma_no_cookie_survives(s.moved_from, c, t3, false);
    lemma_no_cookie_survives(s.moved_to, c, t3, true);
    let (s3, out) = tick(s2, t3);
    let a = flushed(s2.moved_to, t3, true);
    let b = flushed(s2.moved_from, t3, false);
    assert(out[a.len() - 1] == unpaired(g, true));
    assert(out[a.len() + b.len() - 1] == unpaired(h, false));
}

fn find_cookie(list: &Vec<Pending>, c: u32, now: u64) -> (r: Option<usize>)
    ensures
        match r {
            Some(i) => cookie_index(pendings_view(list@), c, now) == i,
            None => cookie_index(pendings_view(list@), c, now) == -1,
        },
{
    let ghost v = pendings_view(list@);
    let mut i: usize = 0;
    while i < list.len()
        invariant
            i <= list@.len(),
            v == pendings_view(list@),
            forall|j: int| 0 <= j < i ==> !pairs_with(v[j], c, now),
        decreases list.len() - i,
    {
        let fresh = !(now >= GRACE_PERIOD_MS && list[i].at < now - GRACE_PERIOD_MS);
        if list[i].cookie == c && fresh {
            assert(is_first_cookie(v, c, now, i as int));
            proof {
                let k = choose|k: int| is_first_cookie(v, c, now, k);
                if k > i {
                    assert(pairs_with(v[i as int], c, now));
                }
            }
            return Some(i);
        }
        i += 1;
    }
    assert(!exists|k: int| is_first_cookie(v, c, now, k));
    None
}

/// Moves the expired halves of `list` out, in order, onto `out`.
fn flush(list: &mut Vec<Pending>, now: u64, is_moved_to: bool, out: &mut Vec<WatchEvent>)
    ensures
        pendings_view(final(list)@) == kept(pendings_view(old(list)@), now),
        events_view(final(out)@) == events_view(old(out)@) + flushed(
            pendings_view(old(list)@),
            now,
            is_moved_to,
        ),
{
    let ghost v = pendings_view(list@);
    let ghost out0 = events_view(out@);
    let mut stay: Vec<Pending> = Vec::new();
    let mut i: usize = 0;
    while i < list.len()
        invariant
            i <= list@.len(),
            v == pendings_view(list@),
            pendings_view(stay@) == kept(v.take(i as int), now),
            events_view(out@) == out0 + flushed(v.take(i as int), now, is_moved_to),
        decreases list.len() - i,
    {
        let p = list[i].copy();
        let ghost stay0 = stay@;
        let ghost outi = out@;
        assert(v.take(i + 1).drop_last() =~= v.take(i as int));
        assert(v.take(i + 1).last() == p@);
        if now >= GRACE_PERIOD_MS && p.at < now - GRACE_PERIOD_MS {
            let ev = if is_moved_to {
                WatchEvent::MovedTo { wd: p.wd, name: p.name, cookie: p.cookie }
            } else {
                WatchEvent::MovedFrom { wd: p.wd, name: p.name, cookie: p.cookie }
            };
            out.push(ev);
            assert(events_view(out@) =~= events_view(outi).push(ev@));
            assert(events_view(out@) =~= out0 + flushed(v.take(i + 1), now, is_moved_to));
        } else {
            stay.push(p);
            assert(pendings_view(stay@) =~= pendings_view(stay0).push(p@));
        }
        i += 1;
    }
    assert(v.take(i as int) =~= v);
    *list = stay;
}

impl Reconciler {
    /// A reconciler with no pending half.
    pub fn new() -> (r: Reconciler)
        ensures
            r@.moved_from.len() == 0,
            r@.moved_to.len() == 0,
    {
        Reconciler { moved_from: Vec::new(), moved_to: Vec::new() }
    }

    /// Takes one raw notification that arrived at `now` (milliseconds): pairs
    /// a rename half with a pending other half of the same cookie whose grace
    /// window has not passed, or keeps it pending; classifies any other
    /// notification.
    pub fn on_event(&mut self, raw: RawEvent, now: u64) -> (r: Option<WatchEvent>)
        ensures
            (final(self)@, option_view(r)) == step(old(self)@, raw@, now),
    {
        if raw.mask & MASK_MOVED_FROM == MASK_MOVED_FROM {
            match find_cookie(&self.moved_to, raw.cookie, now) {
                Some(i) => {
                    let ghost before = self.moved_to@;
                    let other = self.moved_to.remove(i);
                    assert(pendings_view(self.moved_to@) =~= pendings_view(before).remove(
                        i as int,
                    ));
                    Some(
                        WatchEvent::Move {
                            from_wd: raw.wd,
                            from_name: raw.name,
                            to_wd: other.wd,
                            to_name: other.name,
                        },
                    )
                },
                None => {
                    let ghost before = self.moved_from@;
                    let p = Pending { at: now, wd: raw.wd, name: raw.name, cookie: raw.cookie };
                    self.moved_from.push(p);
                    assert(pendings_view(self.moved_from@) =~= pendings_view(before).push(p@));
                    None
                },
            }
        } else if raw.mask & MASK_MOVED_TO == MASK_MOVED_TO {
            match find_cookie(&self.moved_from, raw.cookie, now) {
                Some(i) => {
                    let ghost before = self.moved_from@;
                    let other = self.moved_from.remove(i);
                    assert(pendings_view(self.moved_from@) =~= pendings_view(before).remove(
                        i as int,
                    ));
                    Some(
                        WatchEvent::Move {
                            from_wd: other.wd,
                            from_name: other.name,
                            to_wd: raw.wd,
                            to_name: raw.name,
                        },
                    )
                },
                None => {
                    let ghost before = self.moved_to@;
                    let p = Pending { at: now, wd: raw.wd, name: raw.name, cookie: raw.cookie };
                    self.moved_to.push(p);
                    assert(pendings_view(self.moved_to@) =~= pendings_view(before).push(p@));
                    None
                },
            }
        } else if raw.mask & MASK_CREATE == MASK_CREATE {
            Some(WatchEvent::Create { wd: raw.wd, name: raw.name })
        } else if raw.mask & MASK_DELETE == MASK_DELETE {
            Some(WatchEvent::Delete { wd: raw.wd, name: raw.name })
        } else if raw.mask & MASK_MODIFY == MASK_MODIFY {
            Some(WatchEvent::Modify { wd: raw.wd })
        } else if raw.mask & MASK_Q_OVERFLOW == MASK_Q_OVERFLOW {
            Some(WatchEvent::Overflow)
        } else {
            None
        }
    }

    /// Heartbeat at `now` (milliseconds): gives out, unpaired, every half
    /// whose grace window has passed.
    pub fn on_tick(&mut self, now: u64) -> (r: Vec<WatchEvent>)
        ensures
            (final(self)@, events_view(r@)) == tick(old(self)@, now),
    {
        let mut out: Vec<WatchEvent> = Vec::new();
        flush(&mut self.moved_to, now, true, &mut out);
        flush(&mut self.moved_from, now, false, &mut out);
        assert(events_view(out@) =~= tick(old(self)@, now).1);
        out
    }

    /// Number of rename halves still waiting for their other half.
    pub fn pending(&self) -> (r: usize)
        requires
            self@.moved_from.len() + self@.moved_to.len() <= usize::MAX,
        ensures
            r == self@.moved_from.len() + self@.moved_to.len(),
    {
        self.moved_from.len() + self.moved_to.len()
    }
}

} // verus!
