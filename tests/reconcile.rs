use logtail::watch::{
    watch_mask, RawEvent, Reconciler, WatchEvent, GRACE_PERIOD_MS, MASK_CREATE, MASK_DELETE, MASK_MODIFY,
    MASK_MOVED_FROM, MASK_MOVED_TO, MASK_Q_OVERFLOW,
};

fn raw(wd: i32, mask: u32, cookie: u32, name: &str) -> RawEvent {
    RawEvent { wd, mask, cookie, name: name.to_string() }
}

#[test]
fn plain_notifications_are_classified() {
    let mut r = Reconciler::new();
    assert_eq!(
        r.on_event(raw(1, MASK_CREATE, 0, "a"), 0),
        Some(WatchEvent::Create { wd: 1, name: "a".to_string() })
    );
    assert_eq!(
        r.on_event(raw(1, MASK_DELETE, 0, "a"), 0),
        Some(WatchEvent::Delete { wd: 1, name: "a".to_string() })
    );
    assert_eq!(r.on_event(raw(4, MASK_MODIFY, 0, ""), 0), Some(WatchEvent::Modify { wd: 4 }));
    assert_eq!(r.on_event(raw(-1, MASK_Q_OVERFLOW, 0, ""), 0), Some(WatchEvent::Overflow));
    assert_eq!(r.on_event(raw(1, 0x8000, 0, ""), 0), None);
    assert_eq!(r.pending(), 0);
}

#[test]
fn create_flag_with_directory_bit_is_a_create() {
    let mut r = Reconciler::new();
    assert_eq!(
        r.on_event(raw(1, MASK_CREATE | 0x4000_0000, 0, "d"), 0),
        Some(WatchEvent::Create { wd: 1, name: "d".to_string() })
    );
}

#[test]
fn halves_within_grace_make_one_move() {
    let mut r = Reconciler::new();
    assert_eq!(r.on_event(raw(1, MASK_MOVED_FROM, 9, "a.log"), 100), None);
    assert!(r.on_tick(100 + GRACE_PERIOD_MS).is_empty());
    assert_eq!(
        r.on_event(raw(1, MASK_MOVED_TO, 9, "b.log"), 600),
        Some(WatchEvent::Move {
            from_wd: 1,
            from_name: "a.log".to_string(),
            to_wd: 1,
            to_name: "b.log".to_string(),
        })
    );
    assert_eq!(r.pending(), 0);
    assert!(r.on_tick(5000).is_empty());
}

#[test]
fn moved_to_first_also_pairs() {
    let mut r = Reconciler::new();
    assert_eq!(r.on_event(raw(2, MASK_MOVED_TO, 4, "new"), 0), None);
    assert_eq!(
        r.on_event(raw(1, MASK_MOVED_FROM, 4, "old"), 10),
        Some(WatchEvent::Move {
            from_wd: 1,
            from_name: "old".to_string(),
            to_wd: 2,
            to_name: "new".to_string(),
        })
    );
}

#[test]
fn halves_beyond_grace_stay_apart() {
    let mut r = Reconciler::new();
    assert_eq!(r.on_event(raw(1, MASK_MOVED_FROM, 9, "a.log"), 0), None);
    assert_eq!(
        r.on_tick(GRACE_PERIOD_MS + 1),
        vec![WatchEvent::MovedFrom { wd: 1, name: "a.log".to_string(), cookie: 9 }]
    );
    assert_eq!(r.on_event(raw(1, MASK_MOVED_TO, 9, "b.log"), 1500), None);
    assert!(r.on_tick(1500 + GRACE_PERIOD_MS).is_empty());
    assert_eq!(
        r.on_tick(1501 + GRACE_PERIOD_MS),
        vec![WatchEvent::MovedTo { wd: 1, name: "b.log".to_string(), cookie: 9 }]
    );
}

#[test]
fn different_cookies_do_not_pair() {
    let mut r = Reconciler::new();
    assert_eq!(r.on_event(raw(1, MASK_MOVED_FROM, 1, "a"), 0), None);
    assert_eq!(r.on_event(raw(1, MASK_MOVED_TO, 2, "b"), 0), None);
    assert_eq!(r.pending(), 2);
    assert_eq!(
        r.on_tick(5000),
        vec![
            WatchEvent::MovedTo { wd: 1, name: "b".to_string(), cookie: 2 },
            WatchEvent::MovedFrom { wd: 1, name: "a".to_string(), cookie: 1 },
        ]
    );
}

#[test]
fn expired_halves_leave_in_arrival_order() {
    let mut r = Reconciler::new();
    assert_eq!(r.on_event(raw(1, MASK_MOVED_FROM, 1, "x"), 0), None);
    assert_eq!(r.on_event(raw(1, MASK_MOVED_FROM, 2, "y"), 10), None);
    assert_eq!(r.on_event(raw(1, MASK_MOVED_FROM, 3, "z"), 2000), None);
    assert_eq!(
        r.on_tick(1500),
        vec![
            WatchEvent::MovedFrom { wd: 1, name: "x".to_string(), cookie: 1 },
            WatchEvent::MovedFrom { wd: 1, name: "y".to_string(), cookie: 2 },
        ]
    );
    assert_eq!(r.pending(), 1);
}

#[test]
fn masks_for_files_and_directories() {
    assert_eq!(watch_mask(true), 0x0200_0002);
    assert_eq!(watch_mask(false), 0x0200_0000 | 0x100 | 0x200 | 0x40 | 0x80);
}

#[test]
fn late_half_does_not_pair_even_without_a_flush() {
    let mut r = Reconciler::new();
    assert_eq!(r.on_event(raw(1, MASK_MOVED_FROM, 9, "a.log"), 0), None);
    assert!(r.on_tick(GRACE_PERIOD_MS).is_empty());
    assert_eq!(r.on_event(raw(1, MASK_MOVED_TO, 9, "b.log"), 1500), None);
    assert_eq!(r.pending(), 2);
    assert_eq!(
        r.on_tick(2501),
        vec![
            WatchEvent::MovedTo { wd: 1, name: "b.log".to_string(), cookie: 9 },
            WatchEvent::MovedFrom { wd: 1, name: "a.log".to_string(), cookie: 9 },
        ]
    );
    assert_eq!(r.pending(), 0);
}

#[test]
fn half_at_the_edge_of_the_window_still_pairs() {
    let mut r = Reconciler::new();
    assert_eq!(r.on_event(raw(1, MASK_MOVED_FROM, 3, "a"), 0), None);
    assert_eq!(
        r.on_event(raw(1, MASK_MOVED_TO, 3, "b"), GRACE_PERIOD_MS),
        Some(WatchEvent::Move {
            from_wd: 1,
            from_name: "a".to_string(),
            to_wd: 1,
            to_name: "b".to_string(),
        })
    );
    assert_eq!(r.on_event(raw(1, MASK_MOVED_FROM, 4, "c"), 0), None);
    assert_eq!(r.on_event(raw(1, MASK_MOVED_TO, 4, "d"), GRACE_PERIOD_MS + 1), None);
}
