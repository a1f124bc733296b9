//! The clipboard poll step and its echo guard.

use vstd::prelude::*;
use vstd::utf8::encode_utf8;
use crate::clip::{hash_text, sha256_hex, Clipboard, ClipboardError};
use crate::store::{lemma_upsert_text_existing, lemma_upsert_text_new, prune_spec, upsert_result, upsert_text_spec, RowView, Store, StoreError, StoreView};
use crate::{now_ms, MAX_TEXT_BYTES};

verus! {

/// What the watcher remembers between polls, and the history.
pub struct WatchState {
    pub store: StoreView,
    /// Hash of the last clipboard text looked at.
    pub last_seen: Option<Seq<char>>,
    /// Hash of the text this app itself last wrote to the clipboard, until
    /// the poll that sees it.
    pub last_written: Option<Seq<char>>,
}

/// The state and result of one poll that read `text` from the clipboard at
/// time `now`.
pub open spec fn observe_spec(s: WatchState, text: Option<Seq<char>>, now: i64) -> (WatchState, Result<
    Option<i64>,
    StoreError,
>) {
    match text {
        None => (s, Ok(None)),
        Some(t) => if t.len() == 0 {
            (s, Ok(None))
        } else {
            let h = sha256_hex(t);
            if s.last_seen == Some(h) {
                (s, Ok(None))
            } else {
                let s1 = WatchState { last_seen: Some(h), ..s };
                if s.last_written == Some(h) {
                    (WatchState { last_written: None, ..s1 }, Ok(None))
                } else if encode_utf8(t).len() > MAX_TEXT_BYTES {
                    (s1, Ok(None))
                } else {
                    let up = upsert_text_spec(s.store, h, t, now);
                    match upsert_result(s.store, h) {
                        Err(e) => (s1, Err(e)),
                        Ok((id, is_new)) => {
                            let pruned = if is_new {
                                prune_spec(up, now)
                            } else {
                                up
                            };
                            (WatchState { store: pruned, ..s1 }, Ok(Some(id)))
                        },
                    }
                }
            }
        },
    }
}

/// One call made on the clipboard, with what came back.
pub enum ClipCall {
    /// `nhay_cam()`.
    Sensitive(bool),
    /// `get_text()`.
    Read(Option<Seq<char>>),
    /// `set_text(text)`, the echo guard as it stood when the call was made,
    /// and whether the write succeeded.
    Write { text: Seq<char>, guard: Option<Seq<char>>, ok: bool },
}

/// Polls a clipboard into the history.
pub struct Watcher<C: Clipboard> {
    clip: C,
    store: Store,
    last_seen: Option<String>,
    last_written: Option<String>,
    /// Every call made on the clipboard so far.
    clip_calls: Ghost<Seq<ClipCall>>,
}

pub open spec fn opt_view(o: Option<String>) -> Option<Seq<char>> {
    match o {
        Some(s) => Some(s@),
        None => None,
    }
}

impl<C: Clipboard> Watcher<C> {
    pub closed spec fn state(&self) -> WatchState {
        WatchState {
            store: self.store@,
            last_seen: opt_view(self.last_seen),
            last_written: opt_view(self.last_written),
        }
    }

    pub closed spec fn clip_view(&self) -> C {
        self.clip
    }

    /// The calls made on the clipboard so far, in order.
    pub closed spec fn clip_log(&self) -> Seq<ClipCall> {
        self.clip_calls@
    }

    pub closed spec fn wf(&self) -> bool {
        self.store.wf()
    }

    pub fn new(clip: C, store: Store) -> (r: Self)
        requires
            store.wf(),
        ensures
            r.wf(),
            r.clip_view() == clip,
            r.state() == (WatchState { store: store@, last_seen: None, last_written: None }),
            r.clip_log() == Seq::<ClipCall>::empty(),
    {
        Watcher { clip, store, last_seen: None, last_written: None, clip_calls: Ghost(Seq::empty()) }
    }

    /// The hash of the text this app last wrote to the clipboard that no
    /// poll has seen yet.
    pub fn echo_cell(&self) -> (r: Option<String>)
        ensures
            opt_view(r) == self.state().last_written,
    {
        match &self.last_written {
            Some(h) => Some(h.clone()),
            None => None,
        }
    }

    pub fn store(&self) -> (r: &Store)
        ensures
            r@ == self.state().store,
            self.wf() ==> r.wf(),
    {
        &self.store
    }

    pub fn store_mut(&mut self) -> (r: &mut Store)
        ensures
            r@ == old(self).state().store,
            old(self).wf() ==> r.wf(),
            final(self).state() == (WatchState { store: final(r)@, ..old(self).state() }),
            final(self).clip_view() == old(self).clip_view(),
            final(self).clip_log() == old(self).clip_log(),
            final(self).wf() == final(r).wf(),
    {
        &mut self.store
    }

    pub fn clip_mut(&mut self) -> (r: &mut C)
        ensures
            *r == old(self).clip_view(),
            final(self).state() == old(self).state(),
            *final(r) == final(self).clip_view(),
            final(self).clip_log() == old(self).clip_log(),
            final(self).wf() == old(self).wf(),
    {
        &mut self.clip
    }

    /// Writes a text received from elsewhere to the local clipboard. The
    /// echo guard is set **before** the write: the other way round a poll
    /// could read the new value before the guard is there.
    pub fn apply_remote(&mut self, text: &str) -> (r: Result<(), ClipboardError>)
        requires
            old(self).wf(),
        ensures
            final(self).wf(),
            final(self).state() == (WatchState { last_written: Some(sha256_hex(text@)), ..old(self).state() }),
            final(self).clip_log() == old(self).clip_log().push(
                ClipCall::Write { text: text@, guard: Some(sha256_hex(text@)), ok: r is Ok },
            ),
    {
        self.last_written = Some(hash_text(text));
        let ghost guard = opt_view(self.last_written);
        let r = self.clip.set_text(text);
        self.clip_calls = Ghost(self.clip_calls@.push(ClipCall::Write { text: text@, guard, ok: r is Ok }));
        r
    }

    /// One poll that read `text` from the clipboard at time `now`. Returns
    /// the id of the item written, or `None` when there is nothing new: no
    /// text, an empty one, the same text as last time, the text this app
    /// itself just wrote (the echo guard then clears), or a text over
    /// `MAX_TEXT_BYTES` (skipped whole, never cut). A new item triggers a
    /// prune.
    pub fn observe(&mut self, text: Option<String>, now: i64) -> (r: Result<Option<i64>, StoreError>)
        requires
            old(self).wf(),
        ensures
            final(self).wf(),
            final(self).clip_view() == old(self).clip_view(),
            final(self).clip_log() == old(self).clip_log(),
            (final(self).state(), r) == observe_spec(old(self).state(), opt_view(text), now),
    {
        let text = match text {
            None => return Ok(None),
            Some(t) => t,
        };
        if text.as_str().is_empty() {
            return Ok(None);
        }
        let hash = hash_text(text.as_str());
        if let Some(seen) = &self.last_seen {
            if *seen == hash {
                return Ok(None);
            }
        }
        self.last_seen = Some(hash.clone());
        let echo = match &self.last_written {
            Some(w) => *w == hash,
            None => false,
        };
        if echo {
            self.last_written = None;
            return Ok(None);
        }
        if text.as_str().as_bytes().len() > MAX_TEXT_BYTES {
            return Ok(None);
        }
        let (id, is_new) = match self.store.upsert_text_at(hash.as_str(), text.as_str(), now) {
            Ok(p) => p,
            Err(e) => return Err(e),
        };
        if is_new {
            let _ = self.store.prune_at(now);
        }
        Ok(Some(id))
    }

    /// One poll of the clipboard. Content marked sensitive is left alone:
    /// not read, not hashed, not recorded. Otherwise the text is read and,
    /// whatever the clipboard and the clock gave, the step is an
    /// `observe_spec` step (see `observe`).
    pub fn tick(&mut self) -> (r: Result<Option<i64>, StoreError>)
        requires
            old(self).wf(),
        ensures
            final(self).wf(),
            (final(self).clip_log() == old(self).clip_log().push(ClipCall::Sensitive(true)) && final(self).state()
                == old(self).state() && r == Ok::<Option<i64>, StoreError>(None)) || exists|
                text: Option<Seq<char>>,
                now: i64,
            |
                final(self).clip_log() == old(self).clip_log().push(ClipCall::Sensitive(false)).push(ClipCall::Read(text))
                    && (final(self).state(), r) == #[trigger] observe_spec(old(self).state(), text, now),
    {
        let sensitive = self.clip.nhay_cam();
        self.clip_calls = Ghost(self.clip_calls@.push(ClipCall::Sensitive(sensitive)));
        if sensitive {
            return Ok(None);
        }
        let text = self.clip.get_text();
        self.clip_calls = Ghost(self.clip_calls@.push(ClipCall::Read(opt_view(text))));
        let now = now_ms();
        let r = self.observe(text, now);
        assert((self.state(), r) == observe_spec(old(self).state(), opt_view(text), now));
        r
    }
}

/// A poll that reads a text the user copied before (already in the
/// history), that is new since the last poll, not the app's own write and
/// not over `MAX_TEXT_BYTES`, moves that row's last use to the poll time:
/// no row is added or dropped, the row keeps everything else, and its id
/// is returned.
pub proof fn lemma_repeat_copy_refreshes(s: WatchState, t: Seq<char>, now: i64, i: int)
    requires
        s.store.wf(),
        t.len() > 0,
        encode_utf8(t).len() <= MAX_TEXT_BYTES,
        s.last_seen != Some(sha256_hex(t)),
        s.last_written != Some(sha256_hex(t)),
        0 <= i < s.store.rows.len(),
        s.store.rows[i].hash == sha256_hex(t),
    ensures
        observe_spec(s, Some(t), now).1 == Ok::<Option<i64>, StoreError>(Some(s.store.rows[i].id)),
        observe_spec(s, Some(t), now).0.store.rows.len() == s.store.rows.len(),
        observe_spec(s, Some(t), now).0.store.rows[i] == (RowView { updated_at: now, ..s.store.rows[i] }),
        forall|j: int|
            0 <= j < s.store.rows.len() && j != i ==> #[trigger] observe_spec(s, Some(t), now).0.store.rows[j]
                == s.store.rows[j],
        observe_spec(s, Some(t), now).0.store.seen == s.store.seen,
        observe_spec(s, Some(t), now).0.last_seen == Some(sha256_hex(t)),
        observe_spec(s, Some(t), now).0.last_written == s.last_written,
{
    lemma_upsert_text_existing(s.store, sha256_hex(t), t, now, i);
}

/// A poll that reads a text new to the history (new since the last poll,
/// not the app's own write, not over `MAX_TEXT_BYTES`) records it: the
/// result is the id one past the last, and after the poll's pruning the
/// history holds a row for it with that id, the text, its hash, made and
/// last used at the poll time, unpinned and waiting to be sent. (This
/// holds whenever no row was used after the poll time.)
pub proof fn lemma_new_copy_recorded(s: WatchState, t: Seq<char>, now: i64)
    requires
        s.store.wf(),
        t.len() > 0,
        encode_utf8(t).len() <= MAX_TEXT_BYTES,
        s.last_seen != Some(sha256_hex(t)),
        s.last_written != Some(sha256_hex(t)),
        forall|j: int| 0 <= j < s.store.rows.len() ==> #[trigger] s.store.rows[j].hash != sha256_hex(t),
        forall|j: int| 0 <= j < s.store.rows.len() ==> #[trigger] s.store.rows[j].updated_at <= now,
        s.store.next_id() <= i64::MAX,
    ensures
        observe_spec(s, Some(t), now).1 == Ok::<Option<i64>, StoreError>(Some(s.store.next_id() as i64)),
        observe_spec(s, Some(t), now).0.store.rows.contains(
            RowView {
                id: s.store.next_id() as i64,
                kind: "text"@,
                hash: sha256_hex(t),
                body: t,
                blob: None,
                thumb: None,
                created_at: now,
                updated_at: now,
                pinned: false,
                synced: crate::store::SYNC_CHO_GUI,
            },
        ),
{
    let h = sha256_hex(t);
    let v = s.store;
    lemma_upsert_text_new(v, h, t, now);
    let up = upsert_text_spec(v, h, t, now);
    let n = v.rows.len() as int;
    let r = up.rows[n];
    assert(r == RowView {
        id: v.next_id() as i64,
        kind: "text"@,
        hash: h,
        body: t,
        blob: None,
        thumb: None,
        created_at: now,
        updated_at: now,
        pinned: false,
        synced: crate::store::SYNC_CHO_GUI,
    });
    let q = |x: RowView|
        !x.pinned && x.updated_at >= now - crate::MAX_AGE_MS && (x.updated_at > r.updated_at || (x.updated_at
            == r.updated_at && x.id > r.id));
    assert forall|j: int| 0 <= j < up.rows.len() implies !q(#[trigger] up.rows[j]) by {
        if j < n {
            assert(up.rows[j] == v.rows[j]);
            if n > 0 {
                assert(v.rows[j].id <= v.rows[n - 1].id);
            }
        }
    }
    crate::retention::lemma_count_zero(up.rows, q);
    crate::retention::lemma_prune_rule(up, now, n);
}

/// Text this app itself wrote to the clipboard never becomes a history item
/// on the poll that sees it, and that poll clears the guard.
pub proof fn lemma_echo_suppressed(s: WatchState, t: Seq<char>, now: i64)
    requires
        s.last_written == Some(sha256_hex(t)),
    ensures
        observe_spec(s, Some(t), now).0.store == s.store,
        observe_spec(s, Some(t), now).1 == Ok::<Option<i64>, StoreError>(None),
        t.len() > 0 && s.last_seen != Some(sha256_hex(t)) ==> observe_spec(s, Some(t), now).0.last_written is None,
{
}

/// Polling the same text again right after adds nothing and changes
/// nothing.
pub proof fn lemma_same_text_once(s: WatchState, t: Seq<char>, now: i64, later: i64)
    ensures
        ({
            let s2 = observe_spec(s, Some(t), now).0;
            observe_spec(s2, Some(t), later) == (s2, Ok::<Option<i64>, StoreError>(None))
        }),
{
}

/// An empty clipboard text is never recorded.
pub proof fn lemma_empty_text_ignored(s: WatchState, now: i64)
    ensures
        observe_spec(s, Some(Seq::<char>::empty()), now) == (s, Ok::<Option<i64>, StoreError>(None)),
{
}

} // verus!
