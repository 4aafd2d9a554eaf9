//! Filesystem observation core of a log forwarding agent: rename pairing of
//! raw change notifications, an arena mirror of the watched tree with its
//! inclusion rules, and an offset-tracking line tailer.
pub mod cache;
pub mod entry;
pub mod rule;
pub mod tail;
pub mod watch;
