//! x2clip core: local clipboard history, end-to-end encrypted store-and-forward
//! sync between two machines through a mailbox bucket.

pub mod store;
pub mod text;
pub mod crypto;
pub mod clip;
pub mod mailbox;
pub mod sync;
pub mod watcher;
pub mod config;
pub mod tray;
pub mod wire;
pub mod retention;

use vstd::prelude::*;

verus! {

/// Clipboard poll period, in milliseconds.
pub const POLL_INTERVAL_MS: u64 = 250;

/// Keep at most this many unpinned items in the history.
pub const MAX_ITEMS: usize = 1000;

/// Unpinned items not used for this long (milliseconds) are dropped: 30 days.
pub const MAX_AGE_MS: i64 = 2592000000;

/// A text item larger than this many bytes is skipped, never truncated.
pub const MAX_TEXT_BYTES: usize = 1048576;

/// Upper bound on the size of an object downloaded from the mailbox.
pub const MAX_OBJECT_BYTES: usize = 4194304;

/// Every how many clipboard beats the mailbox is polled: `poll_secs` in
/// beats of `POLL_INTERVAL_MS`, at least one.
pub open spec fn mailbox_period(poll_secs: u64) -> int {
    if poll_secs * 1000 / (POLL_INTERVAL_MS as int) < 1 {
        1
    } else {
        poll_secs * 1000 / (POLL_INTERVAL_MS as int)
    }
}

/// The mailbox period is `poll_secs` seconds counted in 250 ms beats, with
/// no upper bound: four beats a second; a period of zero seconds means
/// every beat.
pub proof fn lemma_mailbox_period(poll_secs: u64)
    ensures
        poll_secs >= 1 ==> mailbox_period(poll_secs) == poll_secs * 1000 / 250,
        poll_secs >= 1 ==> mailbox_period(poll_secs) == 4 * poll_secs,
        poll_secs == 0 ==> mailbox_period(poll_secs) == 1,
{
}

/// Whether clipboard beat `n`, counted from 0 at start-up, is also a
/// mailbox beat. Beat 0 is one, so a start picks up the mailbox at once.
pub fn mailbox_due(n: u64, poll_secs: u64) -> (r: bool)
    requires
        poll_secs <= u64::MAX / 1000,
    ensures
        r == (n as int % mailbox_period(poll_secs) == 0),
        poll_secs >= 1 ==> r == (n as int % (poll_secs * 1000 / 250) == 0),
        poll_secs == 0 ==> r,
{
    proof {
        lemma_mailbox_period(poll_secs);
    }
    let beats = poll_secs * 1000 / POLL_INTERVAL_MS;
    let p: u64 = if beats < 1 {
        1
    } else {
        beats
    };
    n % p == 0
}

/// Milliseconds since the Unix epoch, read from the system clock.
///
/// Trusted: wraps `std::time::SystemTime::now` and `duration_since`. Nothing
/// is stated of the value: it is whatever the clock says. A clock set before
/// 1970 reads as 0 here rather than aborting the process.
#[verifier::external_body]
pub fn now_ms() -> i64 {
    match std::time::SystemTime::now().duration_since(std::time::UNIX_EPOCH) {
        Ok(d) => d.as_millis() as i64,
        Err(_) => 0,
    }
}

} // verus!
