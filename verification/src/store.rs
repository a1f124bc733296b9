//! Clipboard history table: items deduplicated by content hash, a send queue,
//! and the set of mailbox objects already processed.

use vstd::prelude::*;
use vstd::slice::slice_to_vec;
use crate::{now_ms, MAX_AGE_MS, MAX_ITEMS};
use crate::text::{bytes_contain, has_infix, lowercase, to_lowercase};
use crate::retention::{lemma_prune_bounds, unpinned_count};
use vstd::utf8::encode_utf8;

verus! {

/// `synced` state: waiting in the send queue.
pub const SYNC_CHO_GUI: i64 = 0;
/// `synced` state: already sent to the peer.
pub const SYNC_DA_GUI: i64 = 1;
/// `synced` state: never to be sent (received from the peer, or too large).
pub const SYNC_KHONG_GUI: i64 = 2;

/// One history entry as shown to users.
#[derive(Debug)]
pub struct Item {
    pub id: i64,
    pub kind: String,
    pub body: String,
    pub created_at: i64,
    pub updated_at: i64,
    pub pinned: bool,
}

pub struct ItemView {
    pub id: i64,
    pub kind: Seq<char>,
    pub body: Seq<char>,
    pub created_at: i64,
    pub updated_at: i64,
    pub pinned: bool,
}

impl View for Item {
    type V = ItemView;

    open spec fn view(&self) -> ItemView {
        ItemView {
            id: self.id,
            kind: self.kind@,
            body: self.body@,
            created_at: self.created_at,
            updated_at: self.updated_at,
            pinned: self.pinned,
        }
    }
}

impl Item {
    /// A copy of the item, field by field.
    pub fn duplicate(&self) -> (r: Item)
        ensures
            r@ == self@,
    {
        Item {
            id: self.id,
            kind: self.kind.clone(),
            body: self.body.clone(),
            created_at: self.created_at,
            updated_at: self.updated_at,
            pinned: self.pinned,
        }
    }
}

/// A full row of the history table.
#[derive(Clone, Debug)]
pub struct Row {
    pub id: i64,
    pub kind: String,
    pub hash: String,
    pub body: String,
    pub blob: Option<Vec<u8>>,
    pub thumb: Option<Vec<u8>>,
    pub created_at: i64,
    pub updated_at: i64,
    pub pinned: bool,
    pub synced: i64,
}

pub struct RowView {
    pub id: i64,
    pub kind: Seq<char>,
    pub hash: Seq<char>,
    pub body: Seq<char>,
    pub blob: Option<Seq<u8>>,
    pub thumb: Option<Seq<u8>>,
    pub created_at: i64,
    pub updated_at: i64,
    pub pinned: bool,
    pub synced: i64,
}

pub open spec fn bytes_view(o: Option<Vec<u8>>) -> Option<Seq<u8>> {
    match o {
        Some(v) => Some(v@),
        None => None,
    }
}

impl View for Row {
    type V = RowView;

    open spec fn view(&self) -> RowView {
        RowView {
            id: self.id,
            kind: self.kind@,
            hash: self.hash@,
            body: self.body@,
            blob: bytes_view(self.blob),
            thumb: bytes_view(self.thumb),
            created_at: self.created_at,
            updated_at: self.updated_at,
            pinned: self.pinned,
            synced: self.synced,
        }
    }
}

/// A mailbox object key already taken in, and when.
#[derive(Clone, Debug)]
pub struct SeenKey {
    pub key: String,
    pub at: i64,
}

pub struct SeenView {
    pub key: Seq<char>,
    pub at: i64,
}

impl View for SeenKey {
    type V = SeenView;

    open spec fn view(&self) -> SeenView {
        SeenView { key: self.key@, at: self.at }
    }
}

#[derive(Debug)]
pub enum StoreError {
    /// The largest id in use is `i64::MAX`: no new row can be numbered.
    IdsExhausted,
    /// Rows handed to `from_parts` break the table's invariant.
    Corrupt,
}

/// The abstract content of a store.
#[verifier::ext_equal]
pub struct StoreView {
    pub rows: Seq<RowView>,
    pub seen: Seq<SeenView>,
}

/// `a` is more recent than `b`: later `updated_at`, ties broken by larger id.
pub open spec fn newer(a_updated: i64, a_id: i64, b_updated: i64, b_id: i64) -> bool {
    a_updated > b_updated || (a_updated == b_updated && a_id > b_id)
}

pub open spec fn item_of(r: RowView) -> ItemView {
    ItemView {
        id: r.id,
        kind: r.kind,
        body: r.body,
        created_at: r.created_at,
        updated_at: r.updated_at,
        pinned: r.pinned,
    }
}

impl StoreView {
    /// Ids strictly increase along the table and are at least the position
    /// plus one; content hashes and seen keys occur at most once.
    pub open spec fn wf(self) -> bool {
        &&& forall|i: int, j: int| 0 <= i < j < self.rows.len() ==> self.rows[i].id < self.rows[j].id
        &&& forall|i: int| 0 <= i < self.rows.len() ==> self.rows[i].id >= i + 1
        &&& forall|i: int, j: int|
            0 <= i < self.rows.len() && 0 <= j < self.rows.len() && i != j ==> self.rows[i].hash
                != self.rows[j].hash
        &&& forall|i: int, j: int|
            0 <= i < self.seen.len() && 0 <= j < self.seen.len() && i != j ==> self.seen[i].key
                != self.seen[j].key
    }

    /// The id a new row receives: one past the largest id in use.
    pub open spec fn next_id(self) -> int {
        if self.rows.len() == 0 {
            1
        } else {
            self.rows.last().id + 1
        }
    }

    pub open spec fn has_hash(self, h: Seq<char>) -> bool {
        exists|i: int| 0 <= i < self.rows.len() && self.rows[i].hash == h
    }

    pub open spec fn hash_index(self, h: Seq<char>) -> int {
        choose|i: int| 0 <= i < self.rows.len() && self.rows[i].hash == h
    }

    pub open spec fn has_id(self, id: i64) -> bool {
        exists|i: int| 0 <= i < self.rows.len() && self.rows[i].id == id
    }

    pub open spec fn id_index(self, id: i64) -> int {
        choose|i: int| 0 <= i < self.rows.len() && self.rows[i].id == id
    }

    pub open spec fn has_seen(self, key: Seq<char>) -> bool {
        exists|i: int| 0 <= i < self.seen.len() && self.seen[i].key == key
    }

    pub open spec fn items(self) -> Seq<ItemView> {
        self.rows.map_values(|r: RowView| item_of(r))
    }
}

/// A new text row as `upsert_text` writes it.
pub open spec fn text_row(id: int, hash: Seq<char>, body: Seq<char>, now: i64, synced: i64) -> RowView {
    RowView {
        id: id as i64,
        kind: "text"@,
        hash,
        body,
        blob: None,
        thumb: None,
        created_at: now,
        updated_at: now,
        pinned: false,
        synced,
    }
}

pub open spec fn with_updated(r: RowView, t: i64) -> RowView {
    RowView { updated_at: t, ..r }
}

pub open spec fn max_i64(a: i64, b: i64) -> i64 {
    if a >= b { a } else { b }
}

/// The store after `upsert_text` at time `now`.
pub open spec fn upsert_text_spec(v: StoreView, hash: Seq<char>, body: Seq<char>, now: i64) -> StoreView {
    if v.has_hash(hash) {
        StoreView { rows: v.rows.update(v.hash_index(hash), with_updated(v.rows[v.hash_index(hash)], now)), ..v }
    } else if v.next_id() <= i64::MAX {
        StoreView { rows: v.rows.push(text_row(v.next_id(), hash, body, now, SYNC_CHO_GUI)), ..v }
    } else {
        v
    }
}

/// What `upsert_text` returns: the row's id and whether the row is new.
pub open spec fn upsert_result(v: StoreView, hash: Seq<char>) -> Result<(i64, bool), StoreError> {
    if v.has_hash(hash) {
        Ok((v.rows[v.hash_index(hash)].id, false))
    } else if v.next_id() <= i64::MAX {
        Ok((v.next_id() as i64, true))
    } else {
        Err(StoreError::IdsExhausted)
    }
}

/// The store after writing a row received or captured with time stamp `ts`:
/// a hash already present only moves `updated_at` forward to `ts` when `ts`
/// is later; otherwise `fresh`, numbered `next_id`, is appended.
pub open spec fn upsert_latest_spec(v: StoreView, hash: Seq<char>, fresh: RowView, ts: i64) -> StoreView {
    if v.has_hash(hash) {
        StoreView {
            rows: v.rows.update(
                v.hash_index(hash),
                with_updated(v.rows[v.hash_index(hash)], max_i64(v.rows[v.hash_index(hash)].updated_at, ts)),
            ),
            ..v
        }
    } else if v.next_id() <= i64::MAX {
        StoreView { rows: v.rows.push(RowView { id: v.next_id() as i64, ..fresh }), ..v }
    } else {
        v
    }
}

/// Copying again a text already in the history adds no row: only that
/// row's last use moves to `now`, everything else stays, and its id is
/// returned as not new.
pub proof fn lemma_upsert_text_existing(v: StoreView, h: Seq<char>, body: Seq<char>, now: i64, i: int)
    requires
        v.wf(),
        0 <= i < v.rows.len(),
        v.rows[i].hash == h,
    ensures
        upsert_text_spec(v, h, body, now).rows.len() == v.rows.len(),
        upsert_text_spec(v, h, body, now).rows[i] == (RowView { updated_at: now, ..v.rows[i] }),
        forall|j: int|
            0 <= j < v.rows.len() && j != i ==> #[trigger] upsert_text_spec(v, h, body, now).rows[j] == v.rows[j],
        upsert_text_spec(v, h, body, now).seen == v.seen,
        upsert_result(v, h) == Ok::<(i64, bool), StoreError>((v.rows[i].id, false)),
{
    assert(v.has_hash(h));
    let k = v.hash_index(h);
    assert(k == i);
}

/// Writing a row whose hash is already in the history adds no row: only
/// that row's last use moves forward to `ts` when `ts` is later, everything
/// else stays, and its id is returned as not new.
pub proof fn lemma_upsert_latest_existing(v: StoreView, h: Seq<char>, fresh: RowView, ts: i64, i: int)
    requires
        v.wf(),
        0 <= i < v.rows.len(),
        v.rows[i].hash == h,
    ensures
        upsert_latest_spec(v, h, fresh, ts).rows.len() == v.rows.len(),
        upsert_latest_spec(v, h, fresh, ts).rows[i] == (RowView {
            updated_at: if v.rows[i].updated_at >= ts {
                v.rows[i].updated_at
            } else {
                ts
            },
            ..v.rows[i]
        }),
        forall|j: int|
            0 <= j < v.rows.len() && j != i ==> #[trigger] upsert_latest_spec(v, h, fresh, ts).rows[j] == v.rows[j],
        upsert_latest_spec(v, h, fresh, ts).seen == v.seen,
        upsert_result(v, h) == Ok::<(i64, bool), StoreError>((v.rows[i].id, false)),
{
    assert(v.has_hash(h));
    let k = v.hash_index(h);
    assert(k == i);
}

/// Copying a text not yet in the history appends one row after all the
/// others: numbered one past the last id (1 for an empty table), kind
/// `text`, the text itself, made and last used at `now`, unpinned, and
/// waiting in the send queue; the new id is returned as new. Once the ids
/// are used up nothing changes and the call fails.
pub proof fn lemma_upsert_text_new(v: StoreView, h: Seq<char>, body: Seq<char>, now: i64)
    requires
        v.wf(),
        forall|j: int| 0 <= j < v.rows.len() ==> #[trigger] v.rows[j].hash != h,
    ensures
        ({
            let w = upsert_text_spec(v, h, body, now);
            let id: int = if v.rows.len() == 0 {
                1
            } else {
                v.rows[v.rows.len() - 1].id + 1
            };
            &&& id <= i64::MAX ==> {
                &&& w.rows.len() == v.rows.len() + 1
                &&& forall|j: int| 0 <= j < v.rows.len() ==> #[trigger] w.rows[j] == v.rows[j]
                &&& w.rows[v.rows.len() as int].id == id
                &&& w.rows[v.rows.len() as int].kind == "text"@
                &&& w.rows[v.rows.len() as int].hash == h
                &&& w.rows[v.rows.len() as int].body == body
                &&& w.rows[v.rows.len() as int].created_at == now
                &&& w.rows[v.rows.len() as int].updated_at == now
                &&& !w.rows[v.rows.len() as int].pinned
                &&& w.rows[v.rows.len() as int].synced == SYNC_CHO_GUI
                &&& w.seen == v.seen
                &&& upsert_result(v, h) == Ok::<(i64, bool), StoreError>((id as i64, true))
            }
            &&& id > i64::MAX ==> w == v && upsert_result(v, h) == Err::<(i64, bool), StoreError>(
                StoreError::IdsExhausted,
            )
        }),
{
    assert(!v.has_hash(h));
}

/// A received text not yet in the history is appended as one row after all
/// the others: numbered one past the last id, kind `text`, made and last
/// used at the sender's time stamp `ts`, unpinned, and never to be sent
/// back.
pub proof fn lemma_upsert_remote_new(v: StoreView, h: Seq<char>, body: Seq<char>, ts: i64)
    requires
        v.wf(),
        forall|j: int| 0 <= j < v.rows.len() ==> #[trigger] v.rows[j].hash != h,
        v.next_id() <= i64::MAX,
    ensures
        ({
            let w = upsert_latest_spec(v, h, text_row(0, h, body, ts, SYNC_KHONG_GUI), ts);
            &&& w.rows.len() == v.rows.len() + 1
            &&& forall|j: int| 0 <= j < v.rows.len() ==> #[trigger] w.rows[j] == v.rows[j]
            &&& w.rows[v.rows.len() as int].id == v.next_id()
            &&& w.rows[v.rows.len() as int].kind == "text"@
            &&& w.rows[v.rows.len() as int].hash == h
            &&& w.rows[v.rows.len() as int].body == body
            &&& w.rows[v.rows.len() as int].created_at == ts
            &&& w.rows[v.rows.len() as int].updated_at == ts
            &&& !w.rows[v.rows.len() as int].pinned
            &&& w.rows[v.rows.len() as int].synced == SYNC_KHONG_GUI
            &&& w.seen == v.seen
        }),
{
    assert(!v.has_hash(h));
}

/// Forgetting old seen keys keeps exactly the keys recorded at or after
/// `now - MAX_AGE_MS`, in their order, and touches no row.
pub proof fn lemma_prune_seen_rule(v: StoreView, now: i64)
    ensures
        prune_seen_spec(v, now).rows == v.rows,
        forall|k: int|
            0 <= k < v.seen.len() ==> (prune_seen_spec(v, now).seen.contains(#[trigger] v.seen[k]) <== v.seen[k].at
                >= now - MAX_AGE_MS),
        forall|m: int|
            0 <= m < prune_seen_spec(v, now).seen.len() ==> v.seen.contains(#[trigger] prune_seen_spec(v, now).seen[m])
                && prune_seen_spec(v, now).seen[m].at >= now - MAX_AGE_MS,
{
    lemma_recent_seen_rule(v.seen, age_cutoff(now));
    assert forall|k: int| 0 <= k < v.seen.len() && v.seen[k].at >= now - MAX_AGE_MS implies prune_seen_spec(
        v,
        now,
    ).seen.contains(#[trigger] v.seen[k]) by {
        assert(v.seen[k].at >= age_cutoff(now));
    }
}

proof fn lemma_recent_seen_rule(s: Seq<SeenView>, c: int)
    ensures
        forall|k: int| 0 <= k < s.len() && s[k].at >= c ==> recent_seen(s, c).contains(#[trigger] s[k]),
        forall|m: int|
            0 <= m < recent_seen(s, c).len() ==> s.contains(#[trigger] recent_seen(s, c)[m]) && recent_seen(s, c)[m].at
                >= c,
    decreases s.len(),
{
    if s.len() > 0 {
        let t = s.drop_first();
        let rt = recent_seen(t, c);
        let rs = recent_seen(s, c);
        lemma_recent_seen_rule(t, c);
        assert forall|k: int| 0 <= k < s.len() && s[k].at >= c implies rs.contains(#[trigger] s[k]) by {
            if k == 0 {
                assert(rs[0] == s[0]);
            } else {
                assert(t[k - 1] == s[k]);
                let j = choose|j: int| 0 <= j < rt.len() && rt[j] == t[k - 1];
                if s[0].at >= c {
                    assert(rs[j + 1] == rt[j]);
                }
            }
        }
        assert forall|m: int| 0 <= m < rs.len() implies s.contains(#[trigger] rs[m]) && rs[m].at >= c by {
            if s[0].at >= c && m == 0 {
                assert(s[0] == rs[0]);
            } else {
                let m2 = if s[0].at >= c { m - 1 } else { m };
                assert(rs[m] == rt[m2]);
                let j = choose|j: int| 0 <= j < t.len() && t[j] == rt[m2];
                assert(s[j + 1] == t[j]);
            }
        }
    }
}

/// A listing newest first runs from the most recently used row down (later
/// `updated_at` first, ties by larger id); one oldest first runs the other
/// way. When it holds fewer rows than its limit, every qualifying row is in
/// it.
pub proof fn lemma_listing_order(v: StoreView, limit: nat, queue_only: bool, asc: bool, l: Seq<ItemView>)
    requires
        is_listing(v, limit, queue_only, asc, l),
    ensures
        forall|i: int, j: int|
            0 <= i < j < l.len() ==> if asc {
                #[trigger] l[i].updated_at < #[trigger] l[j].updated_at || (l[i].updated_at == l[j].updated_at
                    && l[i].id < l[j].id)
            } else {
                l[i].updated_at > l[j].updated_at || (l[i].updated_at == l[j].updated_at && l[i].id > l[j].id)
            },
        forall|k: int|
            0 <= k < v.rows.len() && (!queue_only || v.rows[k].synced == SYNC_CHO_GUI) && l.len() < limit ==> exists|
                i: int,
            |
                0 <= i < l.len() && l[i].id == (#[trigger] v.rows[k]).id,
{
    assert forall|i: int, j: int| 0 <= i < j < l.len() implies if asc {
        #[trigger] l[i].updated_at < #[trigger] l[j].updated_at || (l[i].updated_at == l[j].updated_at && l[i].id
            < l[j].id)
    } else {
        l[i].updated_at > l[j].updated_at || (l[i].updated_at == l[j].updated_at && l[i].id > l[j].id)
    } by {
        assert(precedes(l[i], l[j], asc));
    }
    assert forall|k: int|
        0 <= k < v.rows.len() && (!queue_only || v.rows[k].synced == SYNC_CHO_GUI) && l.len() < limit implies exists|
            i: int,
        |
            0 <= i < l.len() && l[i].id == (#[trigger] v.rows[k]).id by {
        assert(qualifies(v.rows[k], queue_only));
    }
}

/// A new image row as `upsert_image` writes it (id filled in on insertion).
pub open spec fn image_row(hash: Seq<char>, preview: Seq<char>, png: Seq<u8>, thumb: Seq<u8>, synced: i64, ts: i64) -> RowView {
    RowView {
        id: 0,
        kind: "image"@,
        hash,
        body: preview,
        blob: Some(png),
        thumb: Some(thumb),
        created_at: ts,
        updated_at: ts,
        pinned: false,
        synced,
    }
}

/// The table after setting the send state of the row with id `id`, if any.
pub open spec fn set_synced(rows: Seq<RowView>, id: i64, state: i64) -> Seq<RowView> {
    rows.map_values(|r: RowView| if r.id == id { RowView { synced: state, ..r } } else { r })
}

/// The table after pinning or unpinning the row with id `id`, if any.
pub open spec fn set_pin(rows: Seq<RowView>, id: i64, pinned: bool) -> Seq<RowView> {
    rows.map_values(|r: RowView| if r.id == id { RowView { pinned, ..r } } else { r })
}

/// Rows that `prune` may remove: unpinned and used at or after `cutoff`
/// (older unpinned rows go in any case).
pub open spec fn candidate(r: RowView, cutoff: int) -> bool {
    !r.pinned && r.updated_at >= cutoff
}

/// Number of candidate rows of `s` more recent than `r`.
pub open spec fn count_newer(s: Seq<RowView>, r: RowView, cutoff: int) -> nat
    decreases s.len(),
{
    if s.len() == 0 {
        0
    } else {
        count_newer(s.drop_last(), r, cutoff) + if candidate(s.last(), cutoff) && newer(
            s.last().updated_at,
            s.last().id,
            r.updated_at,
            r.id,
        ) {
            1nat
        } else {
            0nat
        }
    }
}

/// A row stays after pruning `all` at `cutoff`: it is pinned, or it was
/// used at or after `cutoff` and fewer than `MAX_ITEMS` candidates are newer.
pub open spec fn survives(all: Seq<RowView>, r: RowView, cutoff: int) -> bool {
    r.pinned || (r.updated_at >= cutoff && count_newer(all, r, cutoff) < MAX_ITEMS)
}

/// The rows of `s` that survive pruning `all`, in their order.
pub open spec fn survivors(s: Seq<RowView>, all: Seq<RowView>, cutoff: int) -> Seq<RowView>
    decreases s.len(),
{
    if s.len() == 0 {
        s
    } else if survives(all, s[0], cutoff) {
        seq![s[0]] + survivors(s.drop_first(), all, cutoff)
    } else {
        survivors(s.drop_first(), all, cutoff)
    }
}

/// Seen keys of `s` recorded at or after `cutoff`, in their order.
pub open spec fn recent_seen(s: Seq<SeenView>, cutoff: int) -> Seq<SeenView>
    decreases s.len(),
{
    if s.len() == 0 {
        s
    } else if s[0].at >= cutoff {
        seq![s[0]] + recent_seen(s.drop_first(), cutoff)
    } else {
        recent_seen(s.drop_first(), cutoff)
    }
}

/// Removing one row keeps the table's invariant.
proof fn lemma_remove_keeps_wf(v: StoreView, i: int)
    requires
        v.wf(),
        0 <= i < v.rows.len(),
    ensures
        (StoreView { rows: v.rows.remove(i), ..v }).wf(),
{
    let w = StoreView { rows: v.rows.remove(i), ..v };
    assert forall|a: int, b: int| 0 <= a < b < w.rows.len() implies w.rows[a].id < w.rows[b].id by {
        let a2 = if a < i { a } else { a + 1 };
        let b2 = if b < i { b } else { b + 1 };
        assert(v.rows[a2].id < v.rows[b2].id);
    }
    assert forall|a: int| 0 <= a < w.rows.len() implies w.rows[a].id >= a + 1 by {
        let a2 = if a < i { a } else { a + 1 };
        assert(v.rows[a2].id >= a2 + 1);
    }
    assert forall|a: int, b: int|
        0 <= a < w.rows.len() && 0 <= b < w.rows.len() && a != b implies w.rows[a].hash != w.rows[b].hash by {
        let a2 = if a < i { a } else { a + 1 };
        let b2 = if b < i { b } else { b + 1 };
        assert(v.rows[a2].hash != v.rows[b2].hash);
    }
}

/// A row of `s` that survives is among the survivors.
pub(crate) proof fn lemma_survivors_keep(s: Seq<RowView>, all: Seq<RowView>, cutoff: int, k: int)
    requires
        0 <= k < s.len(),
        survives(all, s[k], cutoff),
    ensures
        survivors(s, all, cutoff).contains(s[k]),
    decreases s.len(),
{
    if k == 0 {
        assert(survivors(s, all, cutoff)[0] == s[0]);
    } else {
        let rest = survivors(s.drop_first(), all, cutoff);
        lemma_survivors_keep(s.drop_first(), all, cutoff, k - 1);
        assert(s.drop_first()[k - 1] == s[k]);
        let j = choose|j: int| 0 <= j < rest.len() && rest[j] == s[k];
        if survives(all, s[0], cutoff) {
            assert((seq![s[0]] + rest)[j + 1] == s[k]);
        }
    }
}

/// Rows a listing considers: all of them, or only the send queue.
pub open spec fn qualifies(r: RowView, queue_only: bool) -> bool {
    !queue_only || r.synced == SYNC_CHO_GUI
}

/// `a` comes before `b` in a listing: newest first, or oldest first when
/// `asc`; ties on `updated_at` are ordered by id the same way.
pub open spec fn precedes(a: ItemView, b: ItemView, asc: bool) -> bool {
    if asc {
        newer(b.updated_at, b.id, a.updated_at, a.id)
    } else {
        newer(a.updated_at, a.id, b.updated_at, b.id)
    }
}

/// `l` lists the qualifying rows of `v` in order, up to `limit` of them:
/// it is strictly ordered, holds only qualifying rows, and every qualifying
/// row is in it unless `l` is full and every entry of `l` comes before it.
pub open spec fn is_listing(v: StoreView, limit: nat, queue_only: bool, asc: bool, l: Seq<ItemView>) -> bool {
    &&& l.len() <= limit
    &&& forall|i: int, j: int| 0 <= i < j < l.len() ==> precedes(l[i], l[j], asc)
    &&& forall|i: int|
        #![trigger l[i]]
        0 <= i < l.len() ==> exists|k: int|
            0 <= k < v.rows.len() && qualifies(v.rows[k], queue_only) && l[i] == item_of(#[trigger] v.rows[k])
    &&& forall|k: int|
        0 <= k < v.rows.len() && qualifies(#[trigger] v.rows[k], queue_only) ==> (exists|i: int|
            0 <= i < l.len() && l[i].id == v.rows[k].id) || (l.len() == limit && forall|i: int|
            0 <= i < l.len() ==> precedes(l[i], item_of(v.rows[k]), asc))
}

pub open spec fn item_views(v: Seq<Item>) -> Seq<ItemView> {
    v.map_values(|x: Item| x@)
}

/// A search for `q` finds `it`: a text item whose lower-cased body holds
/// the lower-cased query.
pub open spec fn text_matches(it: ItemView, q: Seq<char>) -> bool {
    it.kind == "text"@ && has_infix(encode_utf8(lowercase(it.body)), encode_utf8(lowercase(q)))
}

/// The entries of `l` that a search for `q` finds, in their order.
pub open spec fn matching(l: Seq<ItemView>, q: Seq<char>) -> Seq<ItemView>
    decreases l.len(),
{
    if l.len() == 0 {
        l
    } else if text_matches(l.last(), q) {
        matching(l.drop_last(), q).push(l.last())
    } else {
        matching(l.drop_last(), q)
    }
}

/// What a search for `q` keeps of the listing `l`, stated from the bytes: an
/// entry is found exactly when it is a text item and the lower-cased query
/// occurs anywhere in its lower-cased body; what is found comes from `l`.
pub proof fn lemma_search_rule(l: Seq<ItemView>, q: Seq<char>)
    ensures
        forall|i: int|
            0 <= i < l.len() ==> (matching(l, q).contains(#[trigger] l[i]) <== (l[i].kind == "text"@ && exists|p: int|
                0 <= p && p + encode_utf8(lowercase(q)).len() <= encode_utf8(lowercase(l[i].body)).len()
                    && #[trigger] encode_utf8(lowercase(l[i].body)).subrange(p, p + encode_utf8(lowercase(q)).len())
                    == encode_utf8(lowercase(q)))),
        forall|m: int|
            0 <= m < matching(l, q).len() ==> l.contains(#[trigger] matching(l, q)[m]) && matching(l, q)[m].kind
                == "text"@ && exists|p: int|
                0 <= p && p + encode_utf8(lowercase(q)).len() <= encode_utf8(lowercase(matching(l, q)[m].body)).len()
                    && #[trigger] encode_utf8(lowercase(matching(l, q)[m].body)).subrange(p, p + encode_utf8(lowercase(q)).len())
                    == encode_utf8(lowercase(q)),
    decreases l.len(),
{
    let n = encode_utf8(lowercase(q));
    if l.len() > 0 {
        let t = l.drop_last();
        let last = l.last();
        lemma_search_rule(t, q);
        let mt = matching(t, q);
        let ml = matching(l, q);
        assert forall|i: int| 0 <= i < l.len() && l[i].kind == "text"@ && (exists|p: int|
            0 <= p && p + n.len() <= encode_utf8(lowercase(l[i].body)).len() && #[trigger] encode_utf8(
                lowercase(l[i].body),
            ).subrange(p, p + n.len()) == n) implies ml.contains(#[trigger] l[i]) by {
            let h = encode_utf8(lowercase(l[i].body));
            let p = choose|p: int| 0 <= p && p + n.len() <= h.len() && #[trigger] h.subrange(p, p + n.len()) == n;
            assert(has_infix(h, n));
            if i == l.len() - 1 {
                assert(text_matches(last, q));
                assert(ml[ml.len() - 1] == l[i]);
            } else {
                assert(t[i] == l[i]);
                assert(mt.contains(t[i]));
                let j = choose|j: int| 0 <= j < mt.len() && mt[j] == t[i];
                if text_matches(last, q) {
                    assert(ml[j] == mt[j]);
                } else {
                    assert(ml == mt);
                }
            }
        }
        assert forall|m: int| 0 <= m < ml.len() implies l.contains(#[trigger] ml[m]) && ml[m].kind == "text"@
            && exists|p: int|
            0 <= p && p + n.len() <= encode_utf8(lowercase(ml[m].body)).len() && #[trigger] encode_utf8(
                lowercase(ml[m].body),
            ).subrange(p, p + n.len()) == n by {
            if text_matches(last, q) && m == ml.len() - 1 {
                assert(ml[m] == last);
                assert(l[l.len() - 1] == last);
                let h = encode_utf8(lowercase(last.body));
                let p = choose|p: int| 0 <= p <= h.len() - n.len() && #[trigger] h.subrange(p, p + n.len()) == n;
                assert(h.subrange(p, p + n.len()) == n);
            } else {
                assert(ml[m] == mt[m]);
                let k = choose|k: int| 0 <= k < t.len() && t[k] == mt[m];
                assert(l[k] == t[k]);
            }
        }
    }
}

/// The items of `all` that a search for `query` finds, in their order.
fn keep_matching(all: &Vec<Item>, query: &str) -> (r: Vec<Item>)
    ensures
        item_views(r@) == matching(item_views(all@), query@),
{
    let needle = to_lowercase(query);
    let text = "text".to_owned();
    proof { reveal_strlit("text"); }
    let mut found: Vec<Item> = Vec::new();
    let mut i: usize = 0;
    while i < all.len()
        invariant
            i <= all@.len(),
            needle@ == lowercase(query@),
            text@ == "text"@,
            item_views(found@) == matching(item_views(all@).take(i as int), query@),
        decreases all@.len() - i,
    {
        let it = &all[i];
        let hit = if it.kind == text {
            let body = to_lowercase(it.body.as_str());
            bytes_contain(body.as_str().as_bytes(), needle.as_str().as_bytes())
        } else {
            false
        };
        proof {
            let l = item_views(all@).take(i + 1);
            assert(l.drop_last() =~= item_views(all@).take(i as int));
            assert(l.last() == all@[i as int]@);
        }
        if hit {
            let ghost before = found@;
            found.push(it.duplicate());
            assert(item_views(found@) =~= item_views(before).push(all@[i as int]@));
        }
        i += 1;
    }
    assert(item_views(all@).take(all@.len() as int) =~= item_views(all@));
    found
}

/// The age limit at time `now`: `now - MAX_AGE_MS`, or the smallest time
/// stamp when that lies before it (then nothing is too old).
pub open spec fn age_cutoff(now: i64) -> int {
    if now - MAX_AGE_MS >= i64::MIN {
        now - MAX_AGE_MS
    } else {
        i64::MIN as int
    }
}

/// The store after pruning at time `now`.
pub open spec fn prune_spec(v: StoreView, now: i64) -> StoreView {
    StoreView { rows: survivors(v.rows, v.rows, age_cutoff(now)), ..v }
}

/// The store after forgetting seen keys older than `MAX_AGE_MS` at `now`.
pub open spec fn prune_seen_spec(v: StoreView, now: i64) -> StoreView {
    StoreView { seen: recent_seen(v.seen, age_cutoff(now)), ..v }
}

/// The store after recording the seen key `key` at time `now`.
pub open spec fn record_seen_spec(v: StoreView, key: Seq<char>, now: i64) -> StoreView {
    if v.has_seen(key) {
        v
    } else {
        StoreView { seen: v.seen.push(SeenView { key, at: now }), ..v }
    }
}

pub open spec fn view_of(rows: Seq<Row>, seen: Seq<SeenKey>) -> StoreView {
    StoreView { rows: rows.map_values(|r: Row| r@), seen: seen.map_values(|k: SeenKey| k@) }
}

/// Distinct positions below `n` are at most `n` in number.
proof fn lemma_distinct_positions(p: Seq<int>, n: int)
    requires
        n >= 0,
        forall|i: int| 0 <= i < p.len() ==> 0 <= #[trigger] p[i] < n,
        p.no_duplicates(),
    ensures
        p.len() <= n,
{
    p.unique_seq_to_set();
    vstd::set_lib::lemma_int_range(0, n);
    assert(p.to_set().subset_of(vstd::set_lib::set_int_range(0, n)));
    vstd::set_lib::lemma_len_subset(p.to_set(), vstd::set_lib::set_int_range(0, n));
}

/// The age limit at time `now` (see `age_cutoff`).
fn age_cutoff_of(now: i64) -> (c: i64)
    ensures
        c == age_cutoff(now),
{
    if now >= i64::MIN + MAX_AGE_MS {
        now - MAX_AGE_MS
    } else {
        i64::MIN
    }
}

proof fn lemma_listing_within_rows(v: StoreView, limit: nat, asc: bool, l: Seq<ItemView>)
    requires
        is_listing(v, limit, false, asc, l),
    ensures
        l.len() <= v.rows.len(),
{
    let n = v.rows.len() as int;
    let p = Seq::new(
        l.len(),
        |i: int| choose|k: int| 0 <= k < v.rows.len() && qualifies(v.rows[k], false) && l[i] == item_of(#[trigger] v.rows[k]),
    );
    assert forall|i: int| 0 <= i < p.len() implies 0 <= #[trigger] p[i] < n && l[i] == item_of(v.rows[p[i]]) by {
        assert(l[i] == l[i]);
    }
    assert forall|a: int, b: int| 0 <= a < p.len() && 0 <= b < p.len() && a != b implies p[a] != p[b] by {
        assert(l[a] == item_of(v.rows[p[a]]) && l[b] == item_of(v.rows[p[b]]));
        if a < b {
            assert(precedes(l[a], l[b], asc));
        } else {
            assert(precedes(l[b], l[a], asc));
        }
    }
    assert(p.no_duplicates());
    lemma_distinct_positions(p, n);
}

proof fn lemma_listing_all_rows(v: StoreView, limit: nat, asc: bool, l: Seq<ItemView>)
    requires
        v.wf(),
        is_listing(v, limit, false, asc, l),
        l.len() < limit,
    ensures
        v.rows.len() <= l.len(),
{
    let q = Seq::new(v.rows.len(), |k: int| choose|i: int| 0 <= i < l.len() && l[i].id == v.rows[k].id);
    assert forall|k: int| 0 <= k < q.len() implies 0 <= #[trigger] q[k] < l.len() && l[q[k]].id == v.rows[k].id by {
        assert(qualifies(v.rows[k], false));
    }
    assert forall|a: int, b: int| 0 <= a < q.len() && 0 <= b < q.len() && a != b implies q[a] != q[b] by {
        assert(l[q[a]].id == v.rows[a].id && l[q[b]].id == v.rows[b].id);
        if a < b {
            assert(v.rows[a].id < v.rows[b].id);
        } else {
            assert(v.rows[b].id < v.rows[a].id);
        }
    }
    assert(q.no_duplicates());
    lemma_distinct_positions(q, l.len() as int);
}

/// A listing of all rows holds `limit` of them, or all of them when there
/// are fewer.
pub proof fn lemma_listing_len(v: StoreView, limit: nat, asc: bool, l: Seq<ItemView>)
    requires
        v.wf(),
        is_listing(v, limit, false, asc, l),
    ensures
        l.len() == (if limit < v.rows.len() {
            limit
        } else {
            v.rows.len()
        }),
{
    lemma_listing_within_rows(v, limit, asc, l);
    if l.len() < limit {
        lemma_listing_all_rows(v, limit, asc, l);
    }
}

/// The history table.
pub struct Store {
    rows: Vec<Row>,
    seen: Vec<SeenKey>,
}

impl View for Store {
    type V = StoreView;

    closed spec fn view(&self) -> StoreView {
        StoreView {
            rows: self.rows@.map_values(|r: Row| r@),
            seen: self.seen@.map_values(|s: SeenKey| s@),
        }
    }
}

impl Store {
    pub open spec fn wf(&self) -> bool {
        self@.wf()
    }

    /// An empty store held in memory.
    pub fn open_memory() -> (r: Result<Store, StoreError>)
        ensures
            r matches Ok(s) && s.wf() && s@.rows.len() == 0 && s@.seen.len() == 0,
    {
        let s = Store { rows: Vec::new(), seen: Vec::new() };
        assert(s@.rows =~= Seq::<RowView>::empty());
        assert(s@.seen =~= Seq::<SeenView>::empty());
        Ok(s)
    }

    /// Position of the row with content hash `hash`.
    fn find_hash(&self, hash: &String) -> (r: Option<usize>)
        requires
            self.wf(),
        ensures
            match r {
                Some(i) => i < self@.rows.len() && self@.rows[i as int].hash == hash@
                    && self@.has_hash(hash@) && self@.hash_index(hash@) == i,
                None => !self@.has_hash(hash@),
            },
    {
        let mut i: usize = 0;
        while i < self.rows.len()
            invariant
                i <= self.rows.len(),
                self.wf(),
                forall|k: int| 0 <= k < i ==> self@.rows[k].hash != hash@,
            decreases self.rows.len() - i,
        {
            if self.rows[i].hash == *hash {
                proof {
                    assert(self@.rows[i as int].hash == hash@);
                    let j = self@.hash_index(hash@);
                    assert(0 <= j < self@.rows.len() && self@.rows[j].hash == hash@);
                }
                return Some(i);
            }
            i += 1;
        }
        None
    }

    /// The id a new row would get, or `None` when the ids are exhausted.
    fn fresh_id(&self) -> (r: Option<i64>)
        requires
            self.wf(),
        ensures
            match r {
                Some(id) => id == self@.next_id(),
                None => self@.next_id() > i64::MAX,
            },
    {
        let n = self.rows.len();
        if n == 0 {
            Some(1)
        } else if self.rows[n - 1].id == i64::MAX {
            None
        } else {
            Some(self.rows[n - 1].id + 1)
        }
    }

    /// Records a text the user copied at time `now`. A hash already present
    /// only moves that row's `updated_at` to `now`; no new row is made.
    /// Returns the row's id and whether it is new.
    pub fn upsert_text_at(&mut self, hash: &str, body: &str, now: i64) -> (r: Result<(i64, bool), StoreError>)
        requires
            old(self).wf(),
        ensures
            final(self).wf(),
            final(self)@ == upsert_text_spec(old(self)@, hash@, body@, now),
            r == upsert_result(old(self)@, hash@),
    {
        let h = hash.to_owned();
        match self.find_hash(&h) {
            Some(i) => {
                self.touch(i, now);
                Ok((self.rows[i].id, false))
            },
            None => {
                match self.fresh_id() {
                    None => Err(StoreError::IdsExhausted),
                    Some(id) => {
                        let row = Row {
                            id,
                            kind: "text".to_owned(),
                            hash: h,
                            body: body.to_owned(),
                            blob: None,
                            thumb: None,
                            created_at: now,
                            updated_at: now,
                            pinned: false,
                            synced: SYNC_CHO_GUI,
                        };
                        proof { reveal_strlit("text"); }
                        self.append_row(row);
                        Ok((id, true))
                    },
                }
            },
        }
    }

    /// Sets `updated_at` of row `i` to `t`.
    fn touch(&mut self, i: usize, t: i64)
        requires
            old(self).wf(),
            i < old(self)@.rows.len(),
        ensures
            final(self).wf(),
            final(self)@ == (StoreView {
                rows: old(self)@.rows.update(i as int, with_updated(old(self)@.rows[i as int], t)),
                ..old(self)@
            }),
            final(self).rows@.len() == old(self).rows@.len(),
            final(self).rows@[i as int].id == old(self).rows@[i as int].id,
    {
        let mut tmp = Row {
            id: 0,
            kind: String::new(),
            hash: String::new(),
            body: String::new(),
            blob: None,
            thumb: None,
            created_at: 0,
            updated_at: 0,
            pinned: false,
            synced: 0,
        };
        self.rows.set_and_swap(i, &mut tmp);
        tmp.updated_at = t;
        self.rows.set_and_swap(i, &mut tmp);
        assert(self@.rows =~= old(self)@.rows.update(i as int, with_updated(old(self)@.rows[i as int], t)));
        assert(self@.seen =~= old(self)@.seen);
    }

    /// Appends a row numbered `next_id` whose hash is not yet present.
    fn append_row(&mut self, row: Row)
        requires
            old(self).wf(),
            row.id == old(self)@.next_id(),
            !old(self)@.has_hash(row.hash@),
        ensures
            final(self).wf(),
            final(self)@ == (StoreView { rows: old(self)@.rows.push(row@), ..old(self)@ }),
    {
        let ghost v = row@;
        self.rows.push(row);
        assert(self@.rows =~= old(self)@.rows.push(v));
        assert(self@.seen =~= old(self)@.seen);
        assert forall|i: int, j: int| 0 <= i < j < self@.rows.len() implies self@.rows[i].id < self@.rows[j].id by {
            if j == self@.rows.len() - 1 {
                assert(old(self)@.rows.len() > 0 ==> old(self)@.rows[i].id <= old(self)@.rows.last().id);
            }
        }
        assert forall|i: int| 0 <= i < self@.rows.len() implies self@.rows[i].id >= i + 1 by {
            if i == self@.rows.len() - 1 && i > 0 {
                assert(old(self)@.rows[i - 1].id >= i);
            }
        }
    }
    /// Writes `fresh` (renumbered) unless the hash is present, in which case
    /// only `updated_at` moves forward to `ts`.
    fn upsert_latest(&mut self, fresh: Row, ts: i64) -> (r: Result<(i64, bool), StoreError>)
        requires
            old(self).wf(),
        ensures
            final(self).wf(),
            final(self)@ == upsert_latest_spec(old(self)@, fresh.hash@, fresh@, ts),
            r == upsert_result(old(self)@, fresh.hash@),
    {
        match self.find_hash(&fresh.hash) {
            Some(i) => {
                let cur = self.rows[i].updated_at;
                let t = if cur >= ts { cur } else { ts };
                self.touch(i, t);
                Ok((self.rows[i].id, false))
            },
            None => {
                match self.fresh_id() {
                    None => Err(StoreError::IdsExhausted),
                    Some(id) => {
                        let mut row = fresh;
                        row.id = id;
                        self.append_row(row);
                        Ok((id, true))
                    },
                }
            },
        }
    }

    /// Records a text received from the peer, stamped with the sender's time
    /// `ts`, and marked never to be sent back.
    pub fn upsert_remote(&mut self, hash: &str, body: &str, ts: i64) -> (r: Result<(i64, bool), StoreError>)
        requires
            old(self).wf(),
        ensures
            final(self).wf(),
            final(self)@ == upsert_latest_spec(old(self)@, hash@, text_row(0, hash@, body@, ts, SYNC_KHONG_GUI), ts),
            r == upsert_result(old(self)@, hash@),
    {
        let row = Row {
            id: 0,
            kind: "text".to_owned(),
            hash: hash.to_owned(),
            body: body.to_owned(),
            blob: None,
            thumb: None,
            created_at: ts,
            updated_at: ts,
            pinned: false,
            synced: SYNC_KHONG_GUI,
        };
        proof { reveal_strlit("text"); }
        assert(row@ == text_row(0, hash@, body@, ts, SYNC_KHONG_GUI));
        self.upsert_latest(row, ts)
    }

    /// Records an image: `mo_ta` is its printable preview, `png` the full
    /// image, `thumb` its thumbnail, `synced` its send state.
    pub fn upsert_image(
        &mut self,
        hash: &str,
        mo_ta: &str,
        png: &[u8],
        thumb: &[u8],
        synced: i64,
        ts: i64,
    ) -> (r: Result<(i64, bool), StoreError>)
        requires
            old(self).wf(),
        ensures
            final(self).wf(),
            final(self)@ == upsert_latest_spec(old(self)@, hash@, image_row(hash@, mo_ta@, png@, thumb@, synced, ts), ts),
            r == upsert_result(old(self)@, hash@),
    {
        let row = Row {
            id: 0,
            kind: "image".to_owned(),
            hash: hash.to_owned(),
            body: mo_ta.to_owned(),
            blob: Some(slice_to_vec(png)),
            thumb: Some(slice_to_vec(thumb)),
            created_at: ts,
            updated_at: ts,
            pinned: false,
            synced,
        };
        proof { reveal_strlit("image"); }
        assert(row@ == image_row(hash@, mo_ta@, png@, thumb@, synced, ts));
        self.upsert_latest(row, ts)
    }

    /// Position of the row with id `id`.
    fn find_id(&self, id: i64) -> (r: Option<usize>)
        requires
            self.wf(),
        ensures
            match r {
                Some(i) => i < self@.rows.len() && self@.rows[i as int].id == id && self@.has_id(id)
                    && self@.id_index(id) == i,
                None => !self@.has_id(id),
            },
    {
        let mut i: usize = 0;
        while i < self.rows.len()
            invariant
                i <= self.rows.len(),
                self.wf(),
                forall|k: int| 0 <= k < i ==> self@.rows[k].id != id,
            decreases self.rows.len() - i,
        {
            if self.rows[i].id == id {
                proof {
                    assert(self@.rows[i as int].id == id);
                    let j = self@.id_index(id);
                    assert(0 <= j < self@.rows.len() && self@.rows[j].id == id);
                }
                return Some(i);
            }
            i += 1;
        }
        None
    }

    /// Pins or unpins the row with id `id`. Returns whether a row has that
    /// id; when none has, nothing changes.
    pub fn set_pinned(&mut self, id: i64, pinned: bool) -> (r: Result<bool, StoreError>)
        requires
            old(self).wf(),
        ensures
            final(self).wf(),
            r == Ok::<bool, StoreError>(old(self)@.has_id(id)),
            final(self)@ == (StoreView {
                rows: set_pin(old(self)@.rows, id, pinned),
                ..old(self)@
            }),
    {
        let found = self.find_id(id);
        if let Some(i) = found {
            let mut tmp = Row {
                id: 0,
                kind: String::new(),
                hash: String::new(),
                body: String::new(),
                blob: None,
                thumb: None,
                created_at: 0,
                updated_at: 0,
                pinned: false,
                synced: 0,
            };
            self.rows.set_and_swap(i, &mut tmp);
            tmp.pinned = pinned;
            self.rows.set_and_swap(i, &mut tmp);
        }
        assert(self@.rows =~= set_pin(old(self)@.rows, id, pinned));
        assert(self@.seen =~= old(self)@.seen);
        Ok(found.is_some())
    }

    /// Sets the send state of the row with id `id`; no row has it, nothing
    /// changes.
    pub fn dat_synced(&mut self, id: i64, state: i64) -> (r: Result<(), StoreError>)
        requires
            old(self).wf(),
        ensures
            final(self).wf(),
            r is Ok,
            final(self)@ == (StoreView {
                rows: set_synced(old(self)@.rows, id, state),
                ..old(self)@
            }),
    {
        if let Some(i) = self.find_id(id) {
            let mut tmp = Row {
                id: 0,
                kind: String::new(),
                hash: String::new(),
                body: String::new(),
                blob: None,
                thumb: None,
                created_at: 0,
                updated_at: 0,
                pinned: false,
                synced: 0,
            };
            self.rows.set_and_swap(i, &mut tmp);
            tmp.synced = state;
            self.rows.set_and_swap(i, &mut tmp);
        }
        assert(self@.rows =~= set_synced(old(self)@.rows, id, state));
        assert(self@.seen =~= old(self)@.seen);
        Ok(())
    }

    /// The full image of the row with id `id`: `None` when no row has that id
    /// or the row holds no image.
    pub fn lay_blob(&self, id: i64) -> (r: Result<Option<Vec<u8>>, StoreError>)
        requires
            self.wf(),
        ensures
            r matches Ok(b) && bytes_view(b) == (if self@.has_id(id) {
                self@.rows[self@.id_index(id)].blob
            } else {
                None
            }),
    {
        match self.find_id(id) {
            None => Ok(None),
            Some(i) => match &self.rows[i].blob {
                None => Ok(None),
                Some(b) => Ok(Some(slice_to_vec(b.as_slice()))),
            },
        }
    }

    /// Number of rows in the table.
    pub fn count(&self) -> (r: Result<i64, StoreError>)
        requires
            self.wf(),
        ensures
            r matches Ok(n) && n == self@.rows.len(),
    {
        if self.rows.len() > 0 {
            assert(self@.rows[self@.rows.len() - 1].id >= self@.rows.len());
        }
        Ok(self.rows.len() as i64)
    }
    /// Whether the mailbox object `key` was already taken in.
    pub fn da_thay(&self, key: &str) -> (r: Result<bool, StoreError>)
        requires
            self.wf(),
        ensures
            r == Ok::<bool, StoreError>(self@.has_seen(key@)),
    {
        let k = key.to_owned();
        let mut i: usize = 0;
        while i < self.seen.len()
            invariant
                i <= self.seen.len(),
                k@ == key@,
                forall|j: int| 0 <= j < i ==> self@.seen[j].key != key@,
            decreases self.seen.len() - i,
        {
            if self.seen[i].key == k {
                assert(self@.seen[i as int].key == key@);
                return Ok(true);
            }
            i += 1;
        }
        Ok(false)
    }

    /// Records that the mailbox object `key` was taken in at time `now`; a
    /// key already recorded keeps its first time.
    pub fn ghi_nhan_da_thay_at(&mut self, key: &str, now: i64) -> (r: Result<(), StoreError>)
        requires
            old(self).wf(),
        ensures
            final(self).wf(),
            r is Ok,
            final(self)@ == record_seen_spec(old(self)@, key@, now),
    {
        let present = self.da_thay(key);
        if let Ok(true) = present {
            return Ok(());
        }
        self.seen.push(SeenKey { key: key.to_owned(), at: now });
        assert(self@.seen =~= old(self)@.seen.push(SeenView { key: key@, at: now }));
        assert(self@.rows =~= old(self)@.rows);
        Ok(())
    }

    /// Forgets the seen keys recorded before `now - MAX_AGE_MS`. Returns how
    /// many were forgotten.
    pub fn prune_seen_at(&mut self, now: i64) -> (r: Result<usize, StoreError>)
        requires
            old(self).wf(),
        ensures
            final(self).wf(),
            final(self)@ == prune_seen_spec(old(self)@, now),
            r == Ok::<usize, StoreError>((old(self)@.seen.len() - final(self)@.seen.len()) as usize),
    {
        let cutoff = age_cutoff_of(now);
        let ghost old_seen = self@.seen;
        let n = self.seen.len();
        let mut i = n;
        let mut removed: usize = 0;
        proof {
            assert(old_seen.skip(n as int) =~= Seq::<SeenView>::empty());
            assert(old_seen.take(n as int) =~= old_seen);
            assert(self@.seen =~= old_seen.take(n as int) + recent_seen(old_seen.skip(n as int), cutoff as int));
        }
        while i > 0
            invariant
                i <= n,
                n == old_seen.len(),
                self.wf(),
                self@.rows == old(self)@.rows,
                self@.seen == old_seen.take(i as int) + recent_seen(old_seen.skip(i as int), cutoff as int),
                removed == n - self@.seen.len(),
                old_seen == old(self)@.seen,
            decreases i,
        {
            i -= 1;
            let ghost before = self@.seen;
            proof {
                assert(old_seen.skip(i as int).drop_first() =~= old_seen.skip(i + 1));
                assert(old_seen.skip(i as int)[0] == old_seen[i as int]);
            }
            proof {
                assert(old_seen.take(i + 1) =~= old_seen.take(i as int).push(old_seen[i as int]));
                assert(self@.seen[i as int] == old_seen[i as int]);
                assert(self.seen@[i as int]@ == self@.seen[i as int]);
                assert(old_seen.skip(i as int).len() > 0);
            }
            if self.seen[i].at < cutoff {
                self.seen.remove(i);
                proof {
                    let rest = recent_seen(old_seen.skip(i + 1), cutoff as int);
                    assert(recent_seen(old_seen.skip(i as int), cutoff as int) == rest);
                    assert(before =~= old_seen.take(i as int).push(old_seen[i as int]) + rest);
                    assert(before.remove(i as int) =~= old_seen.take(i as int) + rest);
                    assert(self@.seen =~= before.remove(i as int));
                    assert(self@.seen =~= old_seen.take(i as int) + recent_seen(old_seen.skip(i as int), cutoff as int));
                    assert(self@.rows =~= old(self)@.rows);
                }
                removed += 1;
            } else {
                proof {
                    let rest = recent_seen(old_seen.skip(i + 1), cutoff as int);
                    assert(recent_seen(old_seen.skip(i as int), cutoff as int) == seq![old_seen[i as int]] + rest);
                    assert(self@.seen =~= old_seen.take(i as int) + recent_seen(old_seen.skip(i as int), cutoff as int));
                }
            }
        }
        proof {
            assert(old_seen.take(0) =~= Seq::<SeenView>::empty());
            assert(old_seen.skip(0) =~= old_seen);
            assert(self@.seen =~= recent_seen(old_seen, cutoff as int));
        }
        Ok(removed)
    }
    /// Whether row `i` survives pruning at `cutoff`.
    fn survives_at(&self, i: usize, cutoff: i64) -> (r: bool)
        requires
            self.wf(),
            i < self@.rows.len(),
        ensures
            r == survives(self@.rows, self@.rows[i as int], cutoff as int),
    {
        let row = &self.rows[i];
        if row.pinned {
            return true;
        }
        if row.updated_at < cutoff {
            return false;
        }
        let mut c: usize = 0;
        let mut j: usize = 0;
        while j < self.rows.len()
            invariant
                j <= self.rows.len(),
                i < self.rows.len(),
                row@ == self@.rows[i as int],
                c <= j,
                c == count_newer(self@.rows.take(j as int), self@.rows[i as int], cutoff as int),
            decreases self.rows.len() - j,
        {
            let x = &self.rows[j];
            proof {
                assert(self@.rows.take(j + 1).drop_last() =~= self@.rows.take(j as int));
                assert(self@.rows.take(j + 1).last() == self@.rows[j as int]);
            }
            if !x.pinned && x.updated_at >= cutoff && (x.updated_at > row.updated_at || (x.updated_at
                == row.updated_at && x.id > row.id)) {
                c += 1;
            }
            j += 1;
        }
        assert(self@.rows.take(self@.rows.len() as int) =~= self@.rows);
        c < MAX_ITEMS
    }

    /// Prunes the history as of time `now`: unpinned rows not used since
    /// `now - MAX_AGE_MS` go, then of the remaining unpinned rows only the
    /// `MAX_ITEMS` most recent stay. Pinned rows are never removed. Returns
    /// how many rows were removed.
    pub fn prune_at(&mut self, now: i64) -> (r: Result<usize, StoreError>)
        requires
            old(self).wf(),
        ensures
            final(self).wf(),
            final(self)@ == prune_spec(old(self)@, now),
            r == Ok::<usize, StoreError>((old(self)@.rows.len() - final(self)@.rows.len()) as usize),
            forall|k: int|
                0 <= k < old(self)@.rows.len() && old(self)@.rows[k].pinned ==> final(self)@.rows.contains(
                    old(self)@.rows[k],
                ),
            unpinned_count(final(self)@.rows) <= MAX_ITEMS,
    {
        let cutoff = age_cutoff_of(now);
        let ghost all = self@.rows;
        let n = self.rows.len();
        let mut keep: Vec<bool> = Vec::new();
        let mut k: usize = 0;
        while k < n
            invariant
                k <= n,
                n == self@.rows.len(),
                self.wf(),
                self@.rows == all,
                keep@.len() == k,
                forall|m: int| 0 <= m < k ==> keep@[m] == survives(all, all[m], cutoff as int),
            decreases n - k,
        {
            let b = self.survives_at(k, cutoff);
            keep.push(b);
            k += 1;
        }
        let mut i = n;
        let mut removed: usize = 0;
        proof {
            assert(all.skip(n as int) =~= Seq::<RowView>::empty());
            assert(all.take(n as int) =~= all);
            assert(self@.rows =~= all.take(n as int) + survivors(all.skip(n as int), all, cutoff as int));
        }
        while i > 0
            invariant
                i <= n,
                n == all.len(),
                keep@.len() == n,
                forall|m: int| 0 <= m < n ==> keep@[m] == survives(all, all[m], cutoff as int),
                self.wf(),
                self@.seen == old(self)@.seen,
                self@.rows == all.take(i as int) + survivors(all.skip(i as int), all, cutoff as int),
                removed == n - self@.rows.len(),
                all == old(self)@.rows,
            decreases i,
        {
            i -= 1;
            let ghost before = self@.rows;
            proof {
                assert(all.skip(i as int).drop_first() =~= all.skip(i + 1));
                assert(all.skip(i as int)[0] == all[i as int]);
                assert(all.take(i + 1) =~= all.take(i as int).push(all[i as int]));
                assert(all.skip(i as int).len() > 0);
            }
            if !keep[i] {
                proof {
                    lemma_remove_keeps_wf(self@, i as int);
                }
                self.rows.remove(i);
                proof {
                    let rest = survivors(all.skip(i + 1), all, cutoff as int);
                    assert(survivors(all.skip(i as int), all, cutoff as int) == rest);
                    assert(before =~= all.take(i as int).push(all[i as int]) + rest);
                    assert(before.remove(i as int) =~= all.take(i as int) + rest);
                    assert(self@.rows =~= before.remove(i as int));
                    assert(self@.seen =~= old(self)@.seen);
                }
                removed += 1;
            } else {
                proof {
                    let rest = survivors(all.skip(i + 1), all, cutoff as int);
                    assert(survivors(all.skip(i as int), all, cutoff as int) == seq![all[i as int]] + rest);
                    assert(self@.rows =~= all.take(i as int) + survivors(all.skip(i as int), all, cutoff as int));
                }
            }
        }
        proof {
            assert(all.take(0) =~= Seq::<RowView>::empty());
            assert(all.skip(0) =~= all);
            assert(self@.rows =~= survivors(all, all, cutoff as int));
            assert forall|k: int| 0 <= k < all.len() && all[k].pinned implies self@.rows.contains(all[k]) by {
                lemma_survivors_keep(all, all, cutoff as int, k);
            }
            lemma_prune_bounds(old(self)@, now);
        }
        Ok(removed)
    }
    fn item_at(&self, i: usize) -> (r: Item)
        requires
            i < self@.rows.len(),
        ensures
            r@ == item_of(self@.rows[i as int]),
    {
        let x = &self.rows[i];
        Item {
            id: x.id,
            kind: x.kind.clone(),
            body: x.body.clone(),
            created_at: x.created_at,
            updated_at: x.updated_at,
            pinned: x.pinned,
        }
    }

    /// Whether row `a` comes before row `b` in a listing.
    fn row_precedes(&self, a: usize, b: usize, asc: bool) -> (r: bool)
        requires
            a < self@.rows.len(),
            b < self@.rows.len(),
        ensures
            r == precedes(item_of(self@.rows[a as int]), item_of(self@.rows[b as int]), asc),
    {
        let x = &self.rows[a];
        let y = &self.rows[b];
        if asc {
            y.updated_at > x.updated_at || (y.updated_at == x.updated_at && y.id > x.id)
        } else {
            x.updated_at > y.updated_at || (x.updated_at == y.updated_at && x.id > y.id)
        }
    }

    /// The qualifying rows in listing order, at most `limit` of them unless
    /// `unbounded`.
    fn select(&self, limit: usize, unbounded: bool, queue_only: bool, asc: bool) -> (r: Vec<Item>)
        requires
            self.wf(),
        ensures
            r@.len() <= self@.rows.len(),
            is_listing(
                self@,
                if unbounded { self@.rows.len() + 1 } else { limit as nat },
                queue_only,
                asc,
                item_views(r@),
            ),
    {
        let ghost lim: nat = if unbounded { self@.rows.len() + 1 } else { limit as nat };
        let n = self.rows.len();
        let mut out: Vec<Item> = Vec::new();
        let ghost mut picked: Seq<int> = Seq::empty();
        let mut last: usize = 0;
        let mut done = false;
        while !done && (unbounded || out.len() < limit)
            invariant
                self.wf(),
                n == self@.rows.len(),
                lim == (if unbounded { self@.rows.len() + 1 } else { limit as nat }),
                out@.len() <= lim,
                out@.len() <= n,
                out@.len() == picked.len(),
                picked.no_duplicates(),
                forall|i: int|
                    0 <= i < picked.len() ==> 0 <= #[trigger] picked[i] < n && qualifies(
                        self@.rows[picked[i]],
                        queue_only,
                    ) && out@[i]@ == item_of(self@.rows[picked[i]]),
                forall|i: int, j: int| 0 <= i < j < out@.len() ==> precedes(out@[i]@, out@[j]@, asc),
                out@.len() > 0 ==> last < n && last == picked.last(),
                forall|k: int|
                    0 <= k < n && qualifies(#[trigger] self@.rows[k], queue_only) ==> (exists|i: int|
                        0 <= i < picked.len() && picked[i] == k) || (!done && (out@.len() == 0
                        || precedes(out@.last()@, item_of(self@.rows[k]), asc))),
            decreases n - out@.len(), (if done { 0int } else { 1int }),
        {
            let mut best: Option<usize> = None;
            let mut k: usize = 0;
            while k < n
                invariant
                    self.wf(),
                    n == self@.rows.len(),
                    k <= n,
                    out@.len() > 0 ==> last < n && out@.last()@ == item_of(self@.rows[last as int]),
                    match best {
                        Some(b) => b < k && qualifies(self@.rows[b as int], queue_only) && (out@.len() == 0
                            || precedes(out@.last()@, item_of(self@.rows[b as int]), asc)),
                        None => true,
                    },
                    forall|m: int|
                        0 <= m < k && qualifies(#[trigger] self@.rows[m], queue_only) && (out@.len() == 0
                            || precedes(out@.last()@, item_of(self@.rows[m]), asc)) ==> match best {
                            Some(b) => b == m || precedes(
                                item_of(self@.rows[b as int]),
                                item_of(self@.rows[m]),
                                asc,
                            ),
                            None => false,
                        },
                decreases n - k,
            {
                let q = !queue_only || self.rows[k].synced == SYNC_CHO_GUI;
                let after = out.len() == 0 || self.row_precedes(last, k, asc);
                if q && after {
                    match best {
                        None => {
                            best = Some(k);
                        },
                        Some(b) => {
                            if self.row_precedes(k, b, asc) {
                                best = Some(k);
                            } else {
                                proof {
                                    assert(self@.rows[b as int].id < self@.rows[k as int].id);
                                }
                            }
                        },
                    }
                }
                k += 1;
            }
            match best {
                None => {
                    done = true;
                },
                Some(b) => {
                    let it = self.item_at(b);
                    proof {
                        assert forall|i: int| 0 <= i < picked.len() implies picked[i] != b by {
                            if i < picked.len() - 1 {
                                assert(precedes(out@[i]@, out@.last()@, asc));
                            }
                        }
                    }
                    let ghost old_out = out@;
                    let ghost old_picked = picked;
                    out.push(it);
                    proof {
                        picked = picked.push(b as int);
                        assert(picked.no_duplicates()) by {
                            assert forall|x: int, y: int| 0 <= x < y < picked.len() implies picked[x] != picked[y] by {
                                if y == picked.len() - 1 {
                                    assert(picked[y] == b);
                                    assert(picked[x] == old_picked[x]);
                                } else {
                                    assert(picked[x] == old_picked[x] && picked[y] == old_picked[y]);
                                }
                            }
                        }
                        assert forall|i: int| 0 <= i < picked.len() implies 0 <= #[trigger] picked[i] < n by {
                            if i < old_picked.len() {
                                assert(picked[i] == old_picked[i]);
                            }
                        }
                        lemma_distinct_positions(picked, n as int);
                        let bi = item_of(self@.rows[b as int]);
                        assert(out@.last()@ == bi);
                        assert forall|i: int, j: int| 0 <= i < j < out@.len() implies precedes(
                            out@[i]@,
                            out@[j]@,
                            asc,
                        ) by {
                            if j == out@.len() - 1 {
                                assert(out@[j] == it);
                                if i < old_out.len() - 1 {
                                    assert(precedes(old_out[i]@, old_out.last()@, asc));
                                }
                            } else {
                                assert(out@[i] == old_out[i] && out@[j] == old_out[j]);
                            }
                        }
                        assert forall|m: int|
                            0 <= m < n && qualifies(#[trigger] self@.rows[m], queue_only) implies (exists|i: int|
                            0 <= i < picked.len() && picked[i] == m) || (!done && (out@.len() == 0
                            || precedes(out@.last()@, item_of(self@.rows[m]), asc))) by {
                            if exists|i: int| 0 <= i < old_picked.len() && old_picked[i] == m {
                                let i = choose|i: int| 0 <= i < old_picked.len() && old_picked[i] == m;
                                assert(picked[i] == m);
                            } else if m == b {
                                assert(picked[old_picked.len() as int] == m);
                            } else {
                                assert(old_out.len() == 0 || precedes(old_out.last()@, item_of(self@.rows[m]), asc));
                            }
                        }
                        assert forall|i: int| 0 <= i < picked.len() implies 0 <= #[trigger] picked[i] < n
                            && qualifies(self@.rows[picked[i]], queue_only) && out@[i]@ == item_of(
                            self@.rows[picked[i]],
                        ) by {
                            if i < old_picked.len() {
                                assert(old_picked[i] == picked[i]);
                                assert(out@[i] == old_out[i]);
                            }
                        }
                    }
                    last = b;
                },
            }
        }
        proof {
            let l = item_views(out@);
            assert forall|i: int| #![trigger l[i]] 0 <= i < l.len() implies exists|k: int|
                0 <= k < self@.rows.len() && qualifies(self@.rows[k], queue_only) && l[i] == item_of(
                    #[trigger] self@.rows[k],
                ) by {
                assert(0 <= picked[i] < n);
            }
            assert forall|k: int|
                0 <= k < self@.rows.len() && qualifies(#[trigger] self@.rows[k], queue_only) implies (exists|i: int|
                0 <= i < l.len() && l[i].id == self@.rows[k].id) || (l.len() == lim && forall|i: int|
                0 <= i < l.len() ==> precedes(l[i], item_of(self@.rows[k]), asc)) by {
                if exists|i: int| 0 <= i < picked.len() && picked[i] == k {
                    let i = choose|i: int| 0 <= i < picked.len() && picked[i] == k;
                    assert(l[i].id == self@.rows[k].id);
                } else {
                    assert forall|i: int| 0 <= i < l.len() implies precedes(l[i], item_of(self@.rows[k]), asc) by {
                        if i < l.len() - 1 {
                            assert(precedes(out@[i]@, out@.last()@, asc));
                        }
                    }
                }
            }
        }
        out
    }

    /// The `limit` most recently used items, newest first.
    pub fn list(&self, limit: usize) -> (r: Result<Vec<Item>, StoreError>)
        requires
            self.wf(),
        ensures
            r matches Ok(l) && is_listing(self@, limit as nat, false, false, item_views(l@)) && l@.len() == (if limit
                < self@.rows.len() {
                limit as nat
            } else {
                self@.rows.len()
            }),
    {
        let l = self.select(limit, false, false, false);
        proof {
            lemma_listing_len(self@, limit as nat, false, item_views(l@));
        }
        Ok(l)
    }

    /// The send queue, oldest first.
    pub fn cho_gui(&self) -> (r: Result<Vec<Item>, StoreError>)
        requires
            self.wf(),
        ensures
            r matches Ok(l) && l@.len() <= self@.rows.len() && is_listing(
                self@,
                self@.rows.len() + 1,
                true,
                true,
                item_views(l@),
            ),
    {
        Ok(self.select(0, true, true, true))
    }
    /// Case-insensitive search over the `MAX_ITEMS` most recent items, newest
    /// first; only text items are searched.
    pub fn search(&self, query: &str) -> (r: Result<Vec<Item>, StoreError>)
        requires
            self.wf(),
        ensures
            r matches Ok(found) && exists|l: Seq<ItemView>|
                is_listing(self@, MAX_ITEMS as nat, false, false, l) && item_views(found@) == matching(l, query@),
    {
        let all = self.select(MAX_ITEMS, false, false, false);
        let found = keep_matching(&all, query);
        assert(is_listing(self@, MAX_ITEMS as nat, false, false, item_views(all@)));
        Ok(found)
    }
    /// Records a text the user copied now (see `upsert_text_at`).
    pub fn upsert_text(&mut self, hash: &str, body: &str) -> (r: Result<(i64, bool), StoreError>)
        requires
            old(self).wf(),
        ensures
            final(self).wf(),
            exists|now: i64| final(self)@ == #[trigger] upsert_text_spec(old(self)@, hash@, body@, now),
            r == upsert_result(old(self)@, hash@),
    {
        let now = now_ms();
        self.upsert_text_at(hash, body, now)
    }

    /// Prunes the history as of the current time (see `prune_at`): the
    /// result is `prune_at` at the time the clock gave.
    pub fn prune(&mut self) -> (r: Result<usize, StoreError>)
        requires
            old(self).wf(),
        ensures
            final(self).wf(),
            exists|now: i64| final(self)@ == #[trigger] prune_spec(old(self)@, now),
            r == Ok::<usize, StoreError>((old(self)@.rows.len() - final(self)@.rows.len()) as usize),
            forall|k: int|
                0 <= k < old(self)@.rows.len() && old(self)@.rows[k].pinned ==> final(self)@.rows.contains(
                    old(self)@.rows[k],
                ),
            unpinned_count(final(self)@.rows) <= MAX_ITEMS,
    {
        let now = now_ms();
        self.prune_at(now)
    }

    /// Records now that the mailbox object `key` was taken in (see
    /// `ghi_nhan_da_thay_at`).
    pub fn ghi_nhan_da_thay(&mut self, key: &str) -> (r: Result<(), StoreError>)
        requires
            old(self).wf(),
        ensures
            final(self).wf(),
            r is Ok,
            final(self)@.rows == old(self)@.rows,
            exists|now: i64| final(self)@ == #[trigger] record_seen_spec(old(self)@, key@, now),
    {
        let now = now_ms();
        self.ghi_nhan_da_thay_at(key, now)
    }

    /// Forgets the seen keys older than `MAX_AGE_MS` as of now (see
    /// `prune_seen_at`): the result is `prune_seen_at` at the time the clock
    /// gave.
    pub fn prune_seen(&mut self) -> (r: Result<usize, StoreError>)
        requires
            old(self).wf(),
        ensures
            final(self).wf(),
            final(self)@.rows == old(self)@.rows,
            exists|now: i64| final(self)@ == #[trigger] prune_seen_spec(old(self)@, now),
            r == Ok::<usize, StoreError>((old(self)@.seen.len() - final(self)@.seen.len()) as usize),
    {
        let now = now_ms();
        self.prune_seen_at(now)
    }

    /// A store holding `rows` and `seen` as they are, if they meet the
    /// table's invariant; `Corrupt` otherwise.
    pub fn from_parts(rows: Vec<Row>, seen: Vec<SeenKey>) -> (r: Result<Store, StoreError>)
        ensures
            match r {
                Ok(s) => s.wf() && s@ == view_of(rows@, seen@),
                Err(e) => e is Corrupt && !view_of(rows@, seen@).wf(),
            },
    {
        let ghost v = view_of(rows@, seen@);
        let n = rows.len();
        let mut i: usize = 0;
        while i < n
            invariant
                n == rows@.len(),
                v == view_of(rows@, seen@),
                i <= n,
                forall|a: int| 0 <= a < i ==> v.rows[a].id >= a + 1,
                forall|a: int, b: int| 0 <= a < b < i ==> v.rows[a].id < v.rows[b].id,
            decreases n - i,
        {
            let id = rows[i].id;
            if id < 1 || ((id - 1) as u64) < (i as u64) {
                assert(v.rows[i as int].id < i + 1);
                return Err(StoreError::Corrupt);
            }
            if i > 0 && rows[i - 1].id >= id {
                assert(v.rows[i - 1].id >= v.rows[i as int].id);
                return Err(StoreError::Corrupt);
            }
            i += 1;
        }
        let mut a: usize = 0;
        while a < n
            invariant
                n == rows@.len(),
                v == view_of(rows@, seen@),
                a <= n,
                forall|x: int, y: int| 0 <= x < a && 0 <= y < n && x != y ==> v.rows[x].hash != v.rows[y].hash,
            decreases n - a,
        {
            let mut b: usize = 0;
            while b < n
                invariant
                    n == rows@.len(),
                    v == view_of(rows@, seen@),
                    a < n,
                    b <= n,
                    forall|y: int| 0 <= y < b && a != y ==> v.rows[a as int].hash != v.rows[y].hash,
                decreases n - b,
            {
                if a != b && rows[a].hash == rows[b].hash {
                    assert(v.rows[a as int].hash == v.rows[b as int].hash);
                    return Err(StoreError::Corrupt);
                }
                b += 1;
            }
            a += 1;
        }
        let m = seen.len();
        let mut a: usize = 0;
        while a < m
            invariant
                m == seen@.len(),
                v == view_of(rows@, seen@),
                a <= m,
                forall|x: int, y: int| 0 <= x < a && 0 <= y < m && x != y ==> v.seen[x].key != v.seen[y].key,
            decreases m - a,
        {
            let mut b: usize = 0;
            while b < m
                invariant
                    m == seen@.len(),
                    v == view_of(rows@, seen@),
                    a < m,
                    b <= m,
                    forall|y: int| 0 <= y < b && a != y ==> v.seen[a as int].key != v.seen[y].key,
                decreases m - b,
            {
                if a != b && seen[a].key == seen[b].key {
                    assert(v.seen[a as int].key == v.seen[b as int].key);
                    return Err(StoreError::Corrupt);
                }
                b += 1;
            }
            a += 1;
        }
        let s = Store { rows, seen };
        assert(s@ == v);
        Ok(s)
    }

    /// The rows of the table, in id order.
    pub fn rows(&self) -> (r: &Vec<Row>)
        ensures
            r@.map_values(|x: Row| x@) == self@.rows,
    {
        &self.rows
    }

    /// The seen keys, in the order they were recorded.
    pub fn seen(&self) -> (r: &Vec<SeenKey>)
        ensures
            r@.map_values(|x: SeenKey| x@) == self@.seen,
    {
        &self.seen
    }
}

} // verus!
