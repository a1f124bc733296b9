//! Sending and receiving through the mailbox: the queue goes out encrypted
//! to the peer's inbox, the own inbox is read, checked and taken into the
//! history.

use vstd::prelude::*;
use vstd::utf8::{decode_utf8, encode_utf8, valid_utf8};
use crate::clip::{hash_text, sha256_hex};
use crate::wire::{lemma_payload_roundtrip, payload_json, read_payload, write_payload};
use crate::crypto::{decrypt_spec, CryptoError, SecretKey, MAC_BYTES, NONCE_BYTES};
use crate::mailbox::{Mailbox, MailboxError};
use crate::now_ms;
use crate::store::{
    upsert_result, candidate, is_listing, item_views, prune_seen_spec, prune_spec, record_seen_spec, set_synced, survivors, text_row,
    upsert_latest_spec, ItemView, RowView, SeenView, Store, StoreError, StoreView, SYNC_CHO_GUI, SYNC_DA_GUI,
    SYNC_KHONG_GUI,
};

verus! {

#[verifier::external_type_specification]
#[verifier::external_body]
pub struct ExFromUtf8Error(std::string::FromUtf8Error);

/// `String::from_utf8`: the documented contract, `Ok` exactly for valid
/// UTF-8, holding the characters the bytes encode.
pub assume_specification[ std::string::String::from_utf8 ](vec: Vec<u8>) -> (r: Result<
    String,
    std::string::FromUtf8Error,
>)
    ensures
        match r {
            Ok(s) => valid_utf8(vec@) && s@ == decode_utf8(vec@),
            Err(_) => !valid_utf8(vec@),
        },
;

/// Payload format version.
pub const PHIEN_BAN: u32 = 1;

/// The content of a mailbox object **before** encryption: `kind`, `hash`
/// and `ts` travel inside the ciphertext, never as object metadata.
#[derive(Debug)]
pub struct Payload {
    pub v: u32,
    pub kind: String,
    pub hash: String,
    pub body: String,
    pub ts: i64,
}

pub struct PayloadView {
    pub v: u32,
    pub kind: Seq<char>,
    pub hash: Seq<char>,
    pub body: Seq<char>,
    pub ts: i64,
}

impl View for Payload {
    type V = PayloadView;

    open spec fn view(&self) -> PayloadView {
        PayloadView { v: self.v, kind: self.kind@, hash: self.hash@, body: self.body@, ts: self.ts }
    }
}

/// The JSON text of a payload, as bytes.
pub open spec fn payload_text(p: PayloadView) -> Seq<u8> {
    payload_json(p.v, encode_utf8(p.kind), encode_utf8(p.hash), encode_utf8(p.body), p.ts)
}

/// The payload the sender builds for a text copied at `ts`.
pub open spec fn text_payload(body: Seq<char>, ts: i64) -> PayloadView {
    PayloadView { v: PHIEN_BAN, kind: "text"@, hash: sha256_hex(body), body, ts }
}

/// A payload the receiver accepts: current version, kind text, and a hash
/// that matches the body.
pub open spec fn payload_ok(p: PayloadView) -> bool {
    p.v == PHIEN_BAN && p.kind == "text"@ && p.hash == sha256_hex(p.body)
}

#[derive(Debug)]
pub enum PayloadError {
    /// Unknown payload version.
    Version(u32),
    /// A kind this version does not handle.
    Kind(String),
    /// The hash does not match the body.
    Hash,
}

/// Two payloads with the same text are the same payload.
pub proof fn lemma_payload_text_injective(p: PayloadView, q: PayloadView)
    requires
        payload_text(p) == payload_text(q),
    ensures
        p == q,
{
    lemma_payload_roundtrip(p.v, encode_utf8(p.kind), encode_utf8(p.hash), encode_utf8(p.body), p.ts);
    lemma_payload_roundtrip(q.v, encode_utf8(q.kind), encode_utf8(q.hash), encode_utf8(q.body), q.ts);
    vstd::utf8::encode_utf8_decode_utf8(p.kind);
    vstd::utf8::encode_utf8_decode_utf8(q.kind);
    vstd::utf8::encode_utf8_decode_utf8(p.hash);
    vstd::utf8::encode_utf8_decode_utf8(q.hash);
    vstd::utf8::encode_utf8_decode_utf8(p.body);
    vstd::utf8::encode_utf8_decode_utf8(q.body);
}

impl Payload {
    /// The payload for a text copied at `ts`.
    pub fn text(body: &str, ts: i64) -> (r: Payload)
        ensures
            r@ == text_payload(body@, ts),
    {
        proof {
            reveal_strlit("text");
        }
        Payload { v: PHIEN_BAN, kind: "text".to_owned(), hash: hash_text(body), body: body.to_owned(), ts }
    }

    /// Checks a received payload: version, kind, and that the hash matches
    /// the body.
    pub fn kiem_tra(&self) -> (r: Result<(), PayloadError>)
        ensures
            match r {
                Ok(()) => payload_ok(self@),
                Err(PayloadError::Version(v)) => self.v != PHIEN_BAN && v == self.v,
                Err(PayloadError::Kind(k)) => self.v == PHIEN_BAN && self.kind@ != "text"@ && k@ == self.kind@,
                Err(PayloadError::Hash) => self.v == PHIEN_BAN && self.kind@ == "text"@ && self.hash@
                    != sha256_hex(self.body@),
            },
    {
        proof {
            reveal_strlit("text");
        }
        if self.v != PHIEN_BAN {
            return Err(PayloadError::Version(self.v));
        }
        if self.kind != "text".to_owned() {
            return Err(PayloadError::Kind(self.kind.clone()));
        }
        if self.hash != hash_text(self.body.as_str()) {
            return Err(PayloadError::Hash);
        }
        Ok(())
    }

    /// The JSON text of the payload, as serde_json writes it.
    pub fn to_json(&self) -> (r: Vec<u8>)
        ensures
            r@ == payload_text(self@),
    {
        write_payload(
            self.v,
            self.kind.as_str().as_bytes(),
            self.hash.as_str().as_bytes(),
            self.body.as_str().as_bytes(),
            self.ts,
        )
    }

    /// Reads the JSON text of a payload; `None` when `b` is the text of no
    /// payload.
    pub fn from_json(b: &[u8]) -> (r: Option<Payload>)
        ensures
            match r {
                Some(p) => payload_text(p@) == b@,
                None => forall|p: PayloadView| payload_text(p) != b@,
            },
    {
        let (v, kind, hash, body, ts) = match read_payload(b) {
            None => {
                proof {
                    assert forall|p: PayloadView| payload_text(p) != b@ by {
                        if payload_text(p) == b@ {
                            assert(payload_json(p.v, encode_utf8(p.kind), encode_utf8(p.hash), encode_utf8(p.body), p.ts)
                                == b@);
                        }
                    }
                }
                return None;
            },
            Some(f) => f,
        };
        let ghost kb = kind@;
        let ghost hb = hash@;
        let ghost bb = body@;
        proof {
            assert forall|p: PayloadView| payload_text(p) == b@ implies encode_utf8(p.kind) == kb && encode_utf8(
                p.hash,
            ) == hb && encode_utf8(p.body) == bb by {
                lemma_payload_roundtrip(v, kb, hb, bb, ts);
                lemma_payload_roundtrip(p.v, encode_utf8(p.kind), encode_utf8(p.hash), encode_utf8(p.body), p.ts);
            }
        }
        let kind = match String::from_utf8(kind) {
            Ok(s) => s,
            Err(_) => {
                proof {
                    assert forall|p: PayloadView| payload_text(p) != b@ by {
                        vstd::utf8::encode_utf8_valid_utf8(p.kind);
                    }
                }
                return None;
            },
        };
        let hash = match String::from_utf8(hash) {
            Ok(s) => s,
            Err(_) => {
                proof {
                    assert forall|p: PayloadView| payload_text(p) != b@ by {
                        vstd::utf8::encode_utf8_valid_utf8(p.hash);
                    }
                }
                return None;
            },
        };
        let body = match String::from_utf8(body) {
            Ok(s) => s,
            Err(_) => {
                proof {
                    assert forall|p: PayloadView| payload_text(p) != b@ by {
                        vstd::utf8::encode_utf8_valid_utf8(p.body);
                    }
                }
                return None;
            },
        };
        proof {
            vstd::utf8::decode_utf8_encode_utf8(kb);
            vstd::utf8::decode_utf8_encode_utf8(hb);
            vstd::utf8::decode_utf8_encode_utf8(bb);
        }
        Some(Payload { v, kind, hash, body, ts })
    }
}

/// What the receiver makes of an object: the payload it holds, if the
/// object opens under `key`, holds the text of a payload, and that payload
/// passes the checks.
pub open spec fn opened_payload(key: Seq<u8>, blob: Seq<u8>) -> Option<PayloadView> {
    match decrypt_spec(key, blob) {
        None => None,
        Some(pt) => if exists|p: PayloadView| #[trigger] payload_text(p) == pt {
            let p = choose|p: PayloadView| #[trigger] payload_text(p) == pt;
            if payload_ok(p) {
                Some(p)
            } else {
                None
            }
        } else {
            None
        },
    }
}

/// The store after taking in payload `p` read under `key` at `now`.
pub open spec fn accept_spec(v: StoreView, p: PayloadView, key: Seq<char>, now: i64) -> StoreView {
    record_seen_spec(upsert_latest_spec(v, p.hash, text_row(0, p.hash, p.body, p.ts, SYNC_KHONG_GUI), p.ts), key, now)
}

/// The newest text so far after accepting one more: a later time stamp
/// wins, a tie keeps the earlier one.
pub open spec fn newer_pick(best: Option<(i64, Seq<char>)>, ts: i64, body: Seq<char>) -> Option<(i64, Seq<char>)> {
    match best {
        None => Some((ts, body)),
        Some((t, b)) => if ts > t {
            Some((ts, body))
        } else {
            best
        },
    }
}

/// One call made on the mailbox, with what came back.
pub enum MailboxCall {
    /// `list(prefix)`: the keys, or `None` when the call failed.
    List { prefix: Seq<char>, keys: Option<Seq<Seq<char>>> },
    /// `get(key)`: the bytes, or `None` when the call failed.
    Get { key: Seq<char>, blob: Option<Seq<u8>> },
    /// `put(key, blob)`, and whether it succeeded.
    Put { key: Seq<char>, blob: Seq<u8>, ok: bool },
    /// `delete(key)`, and whether it succeeded.
    Delete { key: Seq<char>, ok: bool },
}

pub open spec fn keys_view(v: Seq<String>) -> Seq<Seq<char>> {
    v.map_values(|s: String| s@)
}

/// The keys a `list` gave back.
pub open spec fn listed(r: Result<Vec<String>, MailboxError>) -> Option<Seq<Seq<char>>> {
    match r {
        Ok(k) => Some(keys_view(k@)),
        Err(_) => None,
    }
}

/// The bytes a `get` gave back, as the call returned them.
pub open spec fn got(r: Result<Vec<u8>, MailboxError>) -> Option<Seq<u8>> {
    match r {
        Ok(b) => Some(b@),
        Err(_) => None,
    }
}

/// `c` is a `delete` of `key`.
pub open spec fn is_delete_of(c: MailboxCall, key: Seq<char>) -> bool {
    match c {
        MailboxCall::Delete { key: d, .. } => d == key,
        _ => false,
    }
}

/// `c` is a `get` of `key`.
pub open spec fn is_get_of(c: MailboxCall, key: Seq<char>) -> bool {
    match c {
        MailboxCall::Get { key: g, .. } => g == key,
        _ => false,
    }
}

/// The bytes a `get` gave back.
pub open spec fn fetched(c: MailboxCall) -> Option<Seq<u8>> {
    match c {
        MailboxCall::Get { blob, .. } => blob,
        _ => None,
    }
}

/// How the inbox pass handles one listed key in store `v`, with `best` the
/// newest text so far, when `c` are the calls from this key on and `nows`
/// the times read from this key on. Gives the new store, the new newest
/// text, and how many calls and times the key used; `None` when `c` is not
/// what the key calls for.
///
/// A key already seen is deleted again and nothing else. Otherwise it is
/// fetched; an object that cannot be fetched, opened, read or checked is
/// left as it is. An accepted one is written to the history and marked
/// seen at the time read, and only then deleted.
pub open spec fn key_step(
    k: Seq<u8>,
    v: StoreView,
    best: Option<(i64, Seq<char>)>,
    key: Seq<char>,
    c: Seq<MailboxCall>,
    nows: Seq<i64>,
) -> Option<(StoreView, Option<(i64, Seq<char>)>, int, int)> {
    if v.has_seen(key) {
        if c.len() >= 1 && is_delete_of(c[0], key) {
            Some((v, best, 1, 0))
        } else {
            None
        }
    } else if c.len() >= 1 && is_get_of(c[0], key) {
        match fetched(c[0]) {
            None => Some((v, best, 1, 0)),
            Some(b) => match opened_payload(k, b) {
                None => Some((v, best, 1, 0)),
                Some(p) => if c.len() >= 2 && nows.len() >= 1 && upsert_result(v, p.hash) is Ok && is_delete_of(
                    c[1],
                    key,
                ) {
                    Some((accept_spec(v, p, key, nows[0]), newer_pick(best, p.ts, p.body), 2, 1))
                } else {
                    None
                },
            },
        }
    } else {
        None
    }
}

/// The inbox pass over the listed `keys`, in order, from store `v`: the
/// calls `c` it makes and the times `nows` it reads must be exactly those
/// the keys call for. Gives the store and the newest accepted text.
pub open spec fn pass(
    k: Seq<u8>,
    v: StoreView,
    best: Option<(i64, Seq<char>)>,
    keys: Seq<Seq<char>>,
    c: Seq<MailboxCall>,
    nows: Seq<i64>,
) -> Option<(StoreView, Option<(i64, Seq<char>)>)>
    decreases keys.len(),
{
    if keys.len() == 0 {
        if c.len() == 0 && nows.len() == 0 {
            Some((v, best))
        } else {
            None
        }
    } else {
        match key_step(k, v, best, keys[0], c, nows) {
            None => None,
            Some((w, b, m, j)) => pass(k, w, b, keys.drop_first(), c.skip(m), nows.skip(j)),
        }
    }
}

/// The key a `get` or `delete` names.
pub open spec fn call_key(c: MailboxCall) -> Seq<char> {
    match c {
        MailboxCall::Get { key, .. } => key,
        MailboxCall::Delete { key, .. } => key,
        MailboxCall::Put { key, .. } => key,
        MailboxCall::List { prefix, .. } => prefix,
    }
}

/// `c` is a `get` or a `delete` of one of `keys`.
pub open spec fn on_listed_key(c: MailboxCall, keys: Seq<Seq<char>>) -> bool {
    (c is Get || c is Delete) && keys.contains(call_key(c))
}

/// Some call of `c` deletes `key`.
pub open spec fn deletes(c: Seq<MailboxCall>, key: Seq<char>) -> bool {
    exists|i: int| 0 <= i < c.len() && is_delete_of(#[trigger] c[i], key)
}

/// Some call of `c` fetches `key`.
pub open spec fn fetches(c: Seq<MailboxCall>, key: Seq<char>) -> bool {
    exists|i: int| 0 <= i < c.len() && is_get_of(#[trigger] c[i], key)
}

proof fn lemma_seen_record(v: StoreView, key: Seq<char>, now: i64, x: Seq<char>)
    ensures
        record_seen_spec(v, key, now).has_seen(x) <==> (v.has_seen(x) || x == key),
        record_seen_spec(v, key, now).rows == v.rows,
{
    let w = record_seen_spec(v, key, now);
    if v.has_seen(x) {
        let i = choose|i: int| 0 <= i < v.seen.len() && v.seen[i].key == x;
        assert(w.seen[i] == v.seen[i]);
    }
    if !v.has_seen(key) {
        assert(w.seen[v.seen.len() as int].key == key);
        if w.has_seen(x) && x != key {
            let i = choose|i: int| 0 <= i < w.seen.len() && w.seen[i].key == x;
            assert(i < v.seen.len());
            assert(v.seen[i].key == x);
        }
    }
}

/// What one key's step does, in general.
proof fn lemma_step_facts(
    k: Seq<u8>,
    v: StoreView,
    best: Option<(i64, Seq<char>)>,
    key: Seq<char>,
    c: Seq<MailboxCall>,
    nows: Seq<i64>,
)
    requires
        key_step(k, v, best, key, c, nows) is Some,
    ensures
        ({
            let (w, b, m, j) = key_step(k, v, best, key, c, nows).unwrap();
            &&& 1 <= m <= 2 && m <= c.len() && 0 <= j <= nows.len()
            &&& forall|i: int| 0 <= i < m ==> (c[i] is Get || c[i] is Delete) && call_key(c[i]) == key
            &&& v.has_seen(key) ==> forall|i: int| 0 <= i < m ==> !(c[i] is Get)
            &&& (exists|i: int| 0 <= i < m && is_delete_of(#[trigger] c[i], key)) <==> w.has_seen(key)
            &&& forall|x: Seq<char>| v.has_seen(x) ==> #[trigger] w.has_seen(x)
            &&& forall|x: Seq<char>| #[trigger] w.has_seen(x) && !v.has_seen(x) ==> x == key
            &&& queue_within(w, v)
        }),
{
    let (w, b, m, j) = key_step(k, v, best, key, c, nows).unwrap();
    lemma_queue_within_refl(v);
    if v.has_seen(key) {
        assert(is_delete_of(c[0], key));
    } else {
        match fetched(c[0]) {
            None => {},
            Some(blob) => match opened_payload(k, blob) {
                None => {},
                Some(p) => {
                    let u = upsert_latest_spec(v, p.hash, text_row(0, p.hash, p.body, p.ts, SYNC_KHONG_GUI), p.ts);
                    lemma_remote_not_queued(v, p.hash, p.body, p.ts, key, nows[0]);
                    assert(u.seen == v.seen);
                    assert forall|x: Seq<char>| true implies (#[trigger] w.has_seen(x) <==> (v.has_seen(x) || x == key)) by {
                        lemma_seen_record(u, key, nows[0], x);
                        if u.has_seen(x) {
                            let i = choose|i: int| 0 <= i < u.seen.len() && u.seen[i].key == x;
                            assert(v.seen[i].key == x);
                        }
                        if v.has_seen(x) {
                            let i = choose|i: int| 0 <= i < v.seen.len() && v.seen[i].key == x;
                            assert(u.seen[i].key == x);
                        }
                    }
                    assert(is_delete_of(c[1], key));
                    assert(w.has_seen(key));
                },
            },
        }
    }
}

/// What the inbox pass does key by key, over all the listed keys: it calls
/// only `get` and `delete`, only on listed keys, never `put`; it never
/// fetches a key seen before the pass; a listed key is deleted exactly when
/// it ends up seen (seen before, or accepted now); the keys newly seen are
/// listed ones; no seen key is forgotten; and nothing it stores is queued
/// to be sent back.
pub proof fn lemma_pass_per_key(
    k: Seq<u8>,
    v: StoreView,
    best: Option<(i64, Seq<char>)>,
    keys: Seq<Seq<char>>,
    c: Seq<MailboxCall>,
    nows: Seq<i64>,
)
    requires
        pass(k, v, best, keys, c, nows) is Some,
    ensures
        ({
            let w = pass(k, v, best, keys, c, nows).unwrap().0;
            &&& forall|i: int| 0 <= i < c.len() ==> on_listed_key(#[trigger] c[i], keys)
            &&& forall|x: Seq<char>| v.has_seen(x) ==> !#[trigger] fetches(c, x)
            &&& forall|x: Seq<char>| keys.contains(x) ==> (#[trigger] deletes(c, x) <==> w.has_seen(x))
            &&& forall|x: Seq<char>| v.has_seen(x) ==> #[trigger] w.has_seen(x)
            &&& forall|x: Seq<char>| #[trigger] w.has_seen(x) && !v.has_seen(x) ==> keys.contains(x)
            &&& queue_within(w, v)
        }),
    decreases keys.len(),
{
    let w = pass(k, v, best, keys, c, nows).unwrap().0;
    if keys.len() == 0 {
        lemma_queue_within_refl(v);
        assert forall|x: Seq<char>| v.has_seen(x) implies !#[trigger] fetches(c, x) by {}
        assert forall|x: Seq<char>| keys.contains(x) implies (#[trigger] deletes(c, x) <==> w.has_seen(x)) by {
            let i = choose|i: int| 0 <= i < keys.len() && keys[i] == x;
        }
    } else {
        let key = keys[0];
        lemma_step_facts(k, v, best, key, c, nows);
        let (w1, b1, m, j) = key_step(k, v, best, key, c, nows).unwrap();
        let rest = keys.drop_first();
        let c2 = c.skip(m);
        lemma_pass_per_key(k, w1, b1, rest, c2, nows.skip(j));
        assert(pass(k, w1, b1, rest, c2, nows.skip(j)).unwrap().0 == w);
        lemma_queue_within_trans(w, w1, v);
        assert forall|i: int| 0 <= i < c.len() implies on_listed_key(#[trigger] c[i], keys) by {
            if i < m {
                assert(keys[0] == key);
            } else {
                assert(c[i] == c2[i - m]);
                assert(on_listed_key(c2[i - m], rest));
                let t = choose|t: int| 0 <= t < rest.len() && rest[t] == call_key(c2[i - m]);
                assert(keys[t + 1] == rest[t]);
            }
        }
        assert forall|x: Seq<char>| v.has_seen(x) implies !#[trigger] fetches(c, x) by {
            assert(w1.has_seen(x));
            if fetches(c, x) {
                let i = choose|i: int| 0 <= i < c.len() && is_get_of(#[trigger] c[i], x);
                if i < m {
                    assert(x == key);
                } else {
                    assert(c[i] == c2[i - m]);
                    assert(fetches(c2, x));
                }
            }
        }
        assert forall|x: Seq<char>| keys.contains(x) implies (#[trigger] deletes(c, x) <==> w.has_seen(x)) by {
            let in_rest = rest.contains(x);
            if deletes(c, x) {
                let i = choose|i: int| 0 <= i < c.len() && is_delete_of(#[trigger] c[i], x);
                if i < m {
                    assert(x == key);
                    assert(exists|i: int| 0 <= i < m && is_delete_of(#[trigger] c[i], key));
                    assert(w1.has_seen(x));
                } else {
                    assert(c[i] == c2[i - m]);
                    assert(deletes(c2, x));
                    if !in_rest {
                        assert(x == key);
                        assert(w.has_seen(x));
                    }
                }
            }
            if w.has_seen(x) {
                if in_rest {
                    assert(deletes(c2, x));
                    let i = choose|i: int| 0 <= i < c2.len() && is_delete_of(#[trigger] c2[i], x);
                    assert(c[i + m] == c2[i]);
                } else {
                    let t = choose|t: int| 0 <= t < keys.len() && keys[t] == x;
                    if t > 0 {
                        assert(rest[t - 1] == x);
                    }
                    assert(x == key);
                    assert(w1.has_seen(x));
                    let i = choose|i: int| 0 <= i < m && is_delete_of(#[trigger] c[i], key);
                }
            }
        }
        assert forall|x: Seq<char>| #[trigger] w.has_seen(x) && !v.has_seen(x) implies keys.contains(x) by {
            if w1.has_seen(x) {
                assert(x == key);
                assert(keys[0] == x);
            } else {
                let t = choose|t: int| 0 <= t < rest.len() && rest[t] == x;
                assert(keys[t + 1] == x);
            }
        }
    }
}

/// An inbox pass never puts anything: its first call lists the own inbox
/// and every other call is a `get` or a `delete` of a listed key.
pub proof fn lemma_ingest_never_puts(
    k: Seq<u8>,
    own: Seq<char>,
    v: StoreView,
    c: Seq<MailboxCall>,
    w: StoreView,
    r: Result<Option<String>, SyncError>,
)
    requires
        ingest_run(k, own, v, c, w, r),
    ensures
        c[0] is List,
        forall|i: int| 0 <= i < c.len() ==> !(#[trigger] c[i] is Put),
{
    let rest = c.drop_first();
    match c[0] {
        MailboxCall::List { prefix, keys } => {
            match (keys, r) {
                (Some(ks), Ok(res)) => {
                    let (nows, now) = choose|nows: Seq<i64>, now: i64|
                        #![trigger finish_spec(pass(k, v, None, ks, rest, nows).unwrap().0, now)]
                        pass(k, v, None, ks, rest, nows) is Some && w == finish_spec(
                            pass(k, v, None, ks, rest, nows).unwrap().0,
                            now,
                        ) && string_view(res) == text_of(pass(k, v, None, ks, rest, nows).unwrap().1);
                    lemma_pass_per_key(k, v, None, ks, rest, nows);
                    assert forall|i: int| 0 <= i < c.len() implies !(#[trigger] c[i] is Put) by {
                        if i > 0 {
                            assert(c[i] == rest[i - 1]);
                            assert(on_listed_key(rest[i - 1], ks));
                        }
                    }
                },
                (Some(ks), Err(SyncError::Store(_))) => {
                    let (j, nows) = choose|j: int, nows: Seq<i64>|
                        0 <= j < ks.len() && #[trigger] pass(k, v, None, ks.take(j), rest.drop_last(), nows) is Some
                            && w == pass(k, v, None, ks.take(j), rest.drop_last(), nows).unwrap().0 && is_get_of(
                            c.last(),
                            ks[j],
                        );
                    lemma_pass_per_key(k, v, None, ks.take(j), rest.drop_last(), nows);
                    assert forall|i: int| 0 <= i < c.len() implies !(#[trigger] c[i] is Put) by {
                        if 0 < i < c.len() - 1 {
                            assert(c[i] == rest.drop_last()[i - 1]);
                            assert(on_listed_key(rest.drop_last()[i - 1], ks.take(j)));
                        }
                    }
                },
                _ => {},
            }
        },
        _ => {},
    }
}

/// The payloads the inbox pass accepts, in the order of the listed keys.
pub open spec fn pass_accepted(
    k: Seq<u8>,
    v: StoreView,
    best: Option<(i64, Seq<char>)>,
    keys: Seq<Seq<char>>,
    c: Seq<MailboxCall>,
    nows: Seq<i64>,
) -> Seq<PayloadView>
    decreases keys.len(),
{
    if keys.len() == 0 {
        Seq::empty()
    } else {
        match key_step(k, v, best, keys[0], c, nows) {
            None => Seq::empty(),
            Some((w, b, m, j)) => (if m == 2 {
                seq![opened_payload(k, fetched(c[0]).unwrap()).unwrap()]
            } else {
                Seq::empty()
            }) + pass_accepted(k, w, b, keys.drop_first(), c.skip(m), nows.skip(j)),
        }
    }
}

/// The newest of `s` by time stamp, the first of them on a tie.
pub open spec fn newest_of(s: Seq<PayloadView>) -> Option<(i64, Seq<char>)>
    decreases s.len(),
{
    if s.len() == 0 {
        None
    } else {
        newer_pick(newest_of(s.drop_last()), s.last().ts, s.last().body)
    }
}

spec fn pick_from(best: Option<(i64, Seq<char>)>, s: Seq<PayloadView>) -> Option<(i64, Seq<char>)>
    decreases s.len(),
{
    if s.len() == 0 {
        best
    } else {
        pick_from(newer_pick(best, s[0].ts, s[0].body), s.drop_first())
    }
}

proof fn lemma_pick_from(p: Seq<PayloadView>, s: Seq<PayloadView>)
    ensures
        pick_from(newest_of(p), s) == newest_of(p + s),
    decreases s.len(),
{
    if s.len() == 0 {
        assert(p + s =~= p);
    } else {
        let p2 = p.push(s[0]);
        assert(p2.drop_last() =~= p);
        lemma_pick_from(p2, s.drop_first());
        assert(p2 + s.drop_first() =~= p + s);
    }
}

proof fn lemma_pass_pick(
    k: Seq<u8>,
    v: StoreView,
    best: Option<(i64, Seq<char>)>,
    keys: Seq<Seq<char>>,
    c: Seq<MailboxCall>,
    nows: Seq<i64>,
)
    requires
        pass(k, v, best, keys, c, nows) is Some,
    ensures
        pass(k, v, best, keys, c, nows).unwrap().1 == pick_from(best, pass_accepted(k, v, best, keys, c, nows)),
    decreases keys.len(),
{
    if keys.len() > 0 {
        let (w, b, m, j) = key_step(k, v, best, keys[0], c, nows).unwrap();
        lemma_pass_pick(k, w, b, keys.drop_first(), c.skip(m), nows.skip(j));
        let rest = pass_accepted(k, w, b, keys.drop_first(), c.skip(m), nows.skip(j));
        if m == 2 {
            let p = opened_payload(k, fetched(c[0]).unwrap()).unwrap();
            assert((seq![p] + rest)[0] == p);
            assert((seq![p] + rest).drop_first() =~= rest);
        } else {
            assert(Seq::<PayloadView>::empty() + rest =~= rest);
        }
    }
}

proof fn lemma_newest_first_max(s: Seq<PayloadView>)
    ensures
        newest_of(s) is None <==> s.len() == 0,
        s.len() > 0 ==> exists|i: int|
            0 <= i < s.len() && newest_of(s) == Some((s[i].ts, s[i].body)) && (forall|j: int|
                0 <= j < s.len() ==> #[trigger] s[j].ts <= s[i].ts) && (forall|j: int| 0 <= j < i ==> #[trigger] s[j].ts < s[i].ts),
    decreases s.len(),
{
    if s.len() > 0 {
        let t = s.drop_last();
        lemma_newest_first_max(t);
        let n = s.len() - 1;
        if t.len() == 0 {
            assert(s[0].ts <= s[0].ts);
            assert(newest_of(s) == Some((s[0].ts, s[0].body)));
        } else {
            let i = choose|i: int|
                0 <= i < t.len() && newest_of(t) == Some((t[i].ts, t[i].body)) && (forall|j: int|
                    0 <= j < t.len() ==> #[trigger] t[j].ts <= t[i].ts) && (forall|j: int| 0 <= j < i ==> #[trigger] t[j].ts < t[i].ts);
            if s[n].ts > t[i].ts {
                assert forall|j: int| 0 <= j < s.len() implies #[trigger] s[j].ts <= s[n].ts by {
                    if j < n {
                        assert(s[j] == t[j]);
                    }
                }
                assert forall|j: int| 0 <= j < n implies #[trigger] s[j].ts < s[n].ts by {
                    assert(s[j] == t[j]);
                }
            } else {
                assert(s[i] == t[i]);
                assert forall|j: int| 0 <= j < s.len() implies #[trigger] s[j].ts <= s[i].ts by {
                    if j < n {
                        assert(s[j] == t[j]);
                    }
                }
                assert forall|j: int| 0 <= j < i implies #[trigger] s[j].ts < s[i].ts by {
                    assert(s[j] == t[j]);
                }
            }
        }
    }
}

/// The text an inbox pass hands back is that of the newest payload it
/// accepted, the first of them in list order on a tie, and there is none
/// exactly when it accepted nothing.
pub proof fn lemma_ingest_newest(k: Seq<u8>, v: StoreView, keys: Seq<Seq<char>>, c: Seq<MailboxCall>, nows: Seq<i64>)
    requires
        pass(k, v, None, keys, c, nows) is Some,
    ensures
        ({
            let s = pass_accepted(k, v, None, keys, c, nows);
            let best = pass(k, v, None, keys, c, nows).unwrap().1;
            &&& best is None <==> s.len() == 0
            &&& s.len() > 0 ==> exists|i: int|
                0 <= i < s.len() && best == Some((s[i].ts, s[i].body)) && (forall|j: int|
                    0 <= j < s.len() ==> #[trigger] s[j].ts <= s[i].ts) && (forall|j: int|
                    0 <= j < i ==> #[trigger] s[j].ts < s[i].ts)
        }),
{
    let s = pass_accepted(k, v, None, keys, c, nows);
    lemma_pass_pick(k, v, None, keys, c, nows);
    lemma_pick_from(Seq::empty(), s);
    assert(Seq::<PayloadView>::empty() + s =~= s);
    lemma_newest_first_max(s);
}

/// Taking in a checked payload whose text is already in the history adds
/// no row: that row's last use becomes the later of its own and the
/// payload's time stamp, and the row keeps everything else; the object's
/// key is recorded as seen.
pub proof fn lemma_received_copy_refreshes(v: StoreView, p: PayloadView, key: Seq<char>, now: i64, i: int)
    requires
        v.wf(),
        0 <= i < v.rows.len(),
        v.rows[i].hash == p.hash,
    ensures
        accept_spec(v, p, key, now).rows.len() == v.rows.len(),
        accept_spec(v, p, key, now).rows[i] == (RowView {
            updated_at: if v.rows[i].updated_at >= p.ts {
                v.rows[i].updated_at
            } else {
                p.ts
            },
            ..v.rows[i]
        }),
        forall|j: int|
            0 <= j < v.rows.len() && j != i ==> #[trigger] accept_spec(v, p, key, now).rows[j] == v.rows[j],
        accept_spec(v, p, key, now).has_seen(key),
{
    let u = upsert_latest_spec(v, p.hash, text_row(0, p.hash, p.body, p.ts, SYNC_KHONG_GUI), p.ts);
    crate::store::lemma_upsert_latest_existing(v, p.hash, text_row(0, p.hash, p.body, p.ts, SYNC_KHONG_GUI), p.ts, i);
    lemma_seen_record(u, key, now, key);
}

/// What the receiver accepts, stated from the object: it opens under the
/// key to the JSON text of a payload of the current version, of kind
/// `text`, whose hash is the SHA-256 of its body. Anything else is refused.
pub proof fn lemma_accepted_payloads(key: Seq<u8>, blob: Seq<u8>)
    ensures
        opened_payload(key, blob) matches Some(p) ==> p.v == PHIEN_BAN && p.kind == "text"@ && p.hash == sha256_hex(
            p.body,
        ) && decrypt_spec(key, blob) == Some(payload_text(p)),
        forall|p: PayloadView|
            decrypt_spec(key, blob) == Some(#[trigger] payload_text(p)) && p.v == PHIEN_BAN && p.kind == "text"@
                && p.hash == sha256_hex(p.body) ==> opened_payload(key, blob) == Some(p),
{
    assert forall|p: PayloadView|
        decrypt_spec(key, blob) == Some(#[trigger] payload_text(p)) && p.v == PHIEN_BAN && p.kind == "text"@ && p.hash
            == sha256_hex(p.body) implies opened_payload(key, blob) == Some(p) by {
        let q = choose|q: PayloadView| #[trigger] payload_text(q) == payload_text(p);
        lemma_payload_text_injective(q, p);
    }
}

/// A record of the key `key` at `now`: afterwards the key is seen; a key
/// already seen keeps its first time and nothing changes, a new one is
/// added at the end with time `now`; the rows are untouched.
pub proof fn lemma_record_seen_rule(v: StoreView, key: Seq<char>, now: i64)
    ensures
        record_seen_spec(v, key, now).has_seen(key),
        record_seen_spec(v, key, now).rows == v.rows,
        v.has_seen(key) ==> record_seen_spec(v, key, now) == v,
        !v.has_seen(key) ==> record_seen_spec(v, key, now).seen.len() == v.seen.len() + 1 && record_seen_spec(
            v,
            key,
            now,
        ).seen.last() == (SeenView { key, at: now }) && record_seen_spec(v, key, now).seen.drop_last() == v.seen,
{
    lemma_seen_record(v, key, now, key);
    if !v.has_seen(key) {
        assert(record_seen_spec(v, key, now).seen.drop_last() =~= v.seen);
    }
}

proof fn lemma_step_extend(
    k: Seq<u8>,
    v: StoreView,
    best: Option<(i64, Seq<char>)>,
    key: Seq<char>,
    c: Seq<MailboxCall>,
    nows: Seq<i64>,
    d: Seq<MailboxCall>,
    n: Seq<i64>,
)
    requires
        key_step(k, v, best, key, c, nows) is Some,
    ensures
        key_step(k, v, best, key, c + d, nows + n) == key_step(k, v, best, key, c, nows),
        key_step(k, v, best, key, c, nows).unwrap().2 <= c.len(),
        key_step(k, v, best, key, c, nows).unwrap().3 <= nows.len(),
{
    if c.len() >= 1 {
        assert((c + d)[0] == c[0]);
    }
    if c.len() >= 2 {
        assert((c + d)[1] == c[1]);
    }
    if nows.len() >= 1 {
        assert((nows + n)[0] == nows[0]);
    }
}

/// A pass over some keys followed by one more key is the pass over all of
/// them.
#[verifier::spinoff_prover]
#[verifier::rlimit(40)]
proof fn lemma_pass_push(
    k: Seq<u8>,
    v: StoreView,
    best: Option<(i64, Seq<char>)>,
    keys: Seq<Seq<char>>,
    c: Seq<MailboxCall>,
    nows: Seq<i64>,
    key: Seq<char>,
    d: Seq<MailboxCall>,
    n: Seq<i64>,
)
    requires
        pass(k, v, best, keys, c, nows) is Some,
        key_step(k, pass(k, v, best, keys, c, nows).unwrap().0, pass(k, v, best, keys, c, nows).unwrap().1, key, d, n) is Some,
        key_step(k, pass(k, v, best, keys, c, nows).unwrap().0, pass(k, v, best, keys, c, nows).unwrap().1, key, d, n).unwrap().2 == d.len(),
        key_step(k, pass(k, v, best, keys, c, nows).unwrap().0, pass(k, v, best, keys, c, nows).unwrap().1, key, d, n).unwrap().3 == n.len(),
    ensures
        pass(k, v, best, keys.push(key), c + d, nows + n) == Some((
            key_step(k, pass(k, v, best, keys, c, nows).unwrap().0, pass(k, v, best, keys, c, nows).unwrap().1, key, d, n).unwrap().0,
            key_step(k, pass(k, v, best, keys, c, nows).unwrap().0, pass(k, v, best, keys, c, nows).unwrap().1, key, d, n).unwrap().1,
        )),
    decreases keys.len(),
{
    if keys.len() == 0 {
        assert(c + d =~= d);
        assert(nows + n =~= n);
        let ks1 = keys.push(key);
        assert(ks1[0] == key);
        assert(ks1.drop_first() =~= Seq::<Seq<char>>::empty());
        let (w2, b2, m, j) = key_step(k, v, best, key, d, n).unwrap();
        assert(d.skip(m) =~= Seq::<MailboxCall>::empty());
        assert(n.skip(j) =~= Seq::<i64>::empty());
        assert(pass(k, w2, b2, Seq::<Seq<char>>::empty(), Seq::<MailboxCall>::empty(), Seq::<i64>::empty()) == Some((w2, b2)));
    } else {
        let (w1, b1, m, j) = key_step(k, v, best, keys[0], c, nows).unwrap();
        lemma_step_extend(k, v, best, keys[0], c, nows, d, n);
        assert(keys.push(key)[0] == keys[0]);
        assert(keys.push(key).drop_first() =~= keys.drop_first().push(key));
        assert((c + d).skip(m) =~= c.skip(m) + d);
        assert((nows + n).skip(j) =~= nows.skip(j) + n);
        lemma_pass_push(k, w1, b1, keys.drop_first(), c.skip(m), nows.skip(j), key, d, n);
    }
}

/// The clean-up after an inbox pass at time `now`: prune the history and
/// the seen keys.
pub open spec fn finish_spec(v: StoreView, now: i64) -> StoreView {
    prune_seen_spec(prune_spec(v, now), now)
}

pub open spec fn best_view(o: Option<(i64, String)>) -> Option<(i64, Seq<char>)> {
    match o {
        Some((t, b)) => Some((t, b@)),
        None => None,
    }
}

pub open spec fn text_of(o: Option<(i64, Seq<char>)>) -> Option<Seq<char>> {
    match o {
        Some((_, b)) => Some(b),
        None => None,
    }
}

pub open spec fn string_view(o: Option<String>) -> Option<Seq<char>> {
    match o {
        Some(b) => Some(b@),
        None => None,
    }
}

/// `c` is the put of the object for item `it`: under the peer's inbox
/// prefix and a 26-character ULID name (which tells nothing of the
/// content), and opening under `key` to the payload
/// built for the item's text and time.
pub open spec fn put_of(key: Seq<u8>, peer: Seq<char>, it: ItemView, c: MailboxCall) -> bool {
    match c {
        MailboxCall::Put { key: object, blob, .. } => object.len() == peer.len() + 26 && object.take(peer.len() as int)
            == peer && (forall|i: int| peer.len() <= i < object.len() ==> is_ulid_char(#[trigger] object[i]))
            && decrypt_spec(key, blob) == Some(payload_text(text_payload(it.body, it.updated_at))),
        _ => false,
    }
}

pub open spec fn put_ok(c: MailboxCall) -> bool {
    match c {
        MailboxCall::Put { ok, .. } => ok,
        _ => false,
    }
}

/// The calls `c` an inbox pass made on the mailbox, the store `w` after it
/// and the result `r` agree with listing `own` from store `v` under `k`: the
/// first call lists the own inbox; when that fails, nothing else happens.
/// Otherwise the listed keys are handled in order as `pass` says; a store
/// that cannot number a new row stops the pass right after the `get` of
/// the key concerned. At the end the history and seen keys are pruned, and
/// the result is the newest accepted text.
pub open spec fn ingest_run(
    k: Seq<u8>,
    own: Seq<char>,
    v: StoreView,
    c: Seq<MailboxCall>,
    w: StoreView,
    r: Result<Option<String>, SyncError>,
) -> bool {
    c.len() >= 1 && match c[0] {
        MailboxCall::List { prefix, keys } => prefix == own && match (keys, r) {
            (None, Err(SyncError::Mailbox(_))) => c.len() == 1 && w == v,
            (Some(ks), Ok(res)) => exists|nows: Seq<i64>, now: i64|
                #![trigger finish_spec(pass(k, v, None, ks, c.drop_first(), nows).unwrap().0, now)]
                pass(k, v, None, ks, c.drop_first(), nows) is Some && w == finish_spec(
                    pass(k, v, None, ks, c.drop_first(), nows).unwrap().0,
                    now,
                ) && string_view(res) == text_of(pass(k, v, None, ks, c.drop_first(), nows).unwrap().1),
            (Some(ks), Err(SyncError::Store(_))) => exists|j: int, nows: Seq<i64>|
                0 <= j < ks.len() && #[trigger] pass(k, v, None, ks.take(j), c.drop_first().drop_last(), nows) is Some
                    && w == pass(k, v, None, ks.take(j), c.drop_first().drop_last(), nows).unwrap().0 && is_get_of(
                    c.last(),
                    ks[j],
                ),
            _ => false,
        },
        _ => false,
    }
}

/// The puts `c` made for the queue `q`, the store `w` after them and the
/// result `r` agree: one put per item in queue order, each for its item;
/// every put but possibly the last succeeded. On success every item was put
/// and marked sent; when a put fails the items before it are marked sent
/// and it is the last call; when an item is too large to be sealed nothing
/// is put for it or after it.
pub open spec fn send_run(
    key: Seq<u8>,
    peer: Seq<char>,
    v: StoreView,
    q: Seq<ItemView>,
    c: Seq<MailboxCall>,
    w: StoreView,
    r: Result<usize, SyncError>,
) -> bool {
    &&& c.len() <= q.len()
    &&& forall|i: int| 0 <= i < c.len() ==> put_of(key, peer, q[i], #[trigger] c[i])
    &&& forall|i: int| 0 <= i < c.len() - 1 ==> put_ok(#[trigger] c[i])
    &&& match r {
        Ok(n) => n == q.len() && c.len() == q.len() && (c.len() > 0 ==> put_ok(c.last())) && w == mark_sent(v, q),
        Err(SyncError::Mailbox(_)) => c.len() >= 1 && !put_ok(c.last()) && w == mark_sent(v, q.take(c.len() - 1)),
        Err(SyncError::Crypto(_)) => c.len() < q.len() && (c.len() > 0 ==> put_ok(c.last())) && w == mark_sent(
            v,
            q.take(c.len() as int),
        ) && payload_text(text_payload(q[c.len() as int].body, q[c.len() as int].updated_at)).len() + NONCE_BYTES
            + MAC_BYTES > usize::MAX,
        Err(SyncError::Store(_)) => false,
    }
}

/// The store after the queued items `q` were sent, in order.
pub open spec fn mark_sent(v: StoreView, q: Seq<ItemView>) -> StoreView
    decreases q.len(),
{
    if q.len() == 0 {
        v
    } else {
        let w = mark_sent(v, q.drop_last());
        StoreView { rows: set_synced(w.rows, q.last().id, SYNC_DA_GUI), ..w }
    }
}

/// Every row queued in `v` was already queued in `before`, under the same id.
pub open spec fn queue_within(v: StoreView, before: StoreView) -> bool {
    forall|k: int|
        0 <= k < v.rows.len() && (#[trigger] v.rows[k]).synced == SYNC_CHO_GUI ==> exists|j: int|
            0 <= j < before.rows.len() && before.rows[j].id == v.rows[k].id && before.rows[j].synced
                == SYNC_CHO_GUI
}

proof fn lemma_queue_within_trans(a: StoreView, b: StoreView, c: StoreView)
    requires
        queue_within(a, b),
        queue_within(b, c),
    ensures
        queue_within(a, c),
{
    assert forall|k: int| 0 <= k < a.rows.len() && (#[trigger] a.rows[k]).synced == SYNC_CHO_GUI implies exists|j: int|
        0 <= j < c.rows.len() && c.rows[j].id == a.rows[k].id && c.rows[j].synced == SYNC_CHO_GUI by {
        let j = choose|j: int| 0 <= j < b.rows.len() && b.rows[j].id == a.rows[k].id && b.rows[j].synced == SYNC_CHO_GUI;
        assert(b.rows[j].synced == SYNC_CHO_GUI);
    }
}

proof fn lemma_queue_within_refl(a: StoreView)
    ensures
        queue_within(a, a),
{
    assert forall|k: int| 0 <= k < a.rows.len() && (#[trigger] a.rows[k]).synced == SYNC_CHO_GUI implies exists|j: int|
        0 <= j < a.rows.len() && a.rows[j].id == a.rows[k].id && a.rows[j].synced == SYNC_CHO_GUI by {
        assert(a.rows[k].id == a.rows[k].id);
    }
}

/// Taking in a received text never adds to the send queue.
pub proof fn lemma_remote_not_queued(v: StoreView, hash: Seq<char>, body: Seq<char>, ts: i64, key: Seq<char>, now: i64)
    ensures
        queue_within(
            record_seen_spec(upsert_latest_spec(v, hash, text_row(0, hash, body, ts, SYNC_KHONG_GUI), ts), key, now),
            v,
        ),
{
    let w = upsert_latest_spec(v, hash, text_row(0, hash, body, ts, SYNC_KHONG_GUI), ts);
    let x = record_seen_spec(w, key, now);
    assert(x.rows == w.rows);
    assert forall|k: int| 0 <= k < x.rows.len() && (#[trigger] x.rows[k]).synced == SYNC_CHO_GUI implies exists|j: int|
        0 <= j < v.rows.len() && v.rows[j].id == x.rows[k].id && v.rows[j].synced == SYNC_CHO_GUI by {
        if k < v.rows.len() {
            assert(v.rows[k].id == x.rows[k].id && v.rows[k].synced == x.rows[k].synced);
        }
    }
}

pub(crate) proof fn lemma_survivors_from(s: Seq<RowView>, all: Seq<RowView>, cutoff: int, m: int)
    requires
        0 <= m < survivors(s, all, cutoff).len(),
    ensures
        s.contains(survivors(s, all, cutoff)[m]),
    decreases s.len(),
{
    let rest = survivors(s.drop_first(), all, cutoff);
    if s.len() > 0 {
        if crate::store::survives(all, s[0], cutoff) {
            if m == 0 {
                assert(s[0] == survivors(s, all, cutoff)[m]);
            } else {
                lemma_survivors_from(s.drop_first(), all, cutoff, m - 1);
                let i = choose|i: int| 0 <= i < s.drop_first().len() && s.drop_first()[i] == rest[m - 1];
                assert(s[i + 1] == survivors(s, all, cutoff)[m]);
            }
        } else {
            lemma_survivors_from(s.drop_first(), all, cutoff, m);
            let i = choose|i: int| 0 <= i < s.drop_first().len() && s.drop_first()[i] == rest[m];
            assert(s[i + 1] == survivors(s, all, cutoff)[m]);
        }
    }
}

/// Pruning never adds to the send queue.
proof fn lemma_prune_not_queued(v: StoreView, cutoff: int)
    ensures
        queue_within(StoreView { rows: survivors(v.rows, v.rows, cutoff), ..v }, v),
{
    let x = StoreView { rows: survivors(v.rows, v.rows, cutoff), ..v };
    assert forall|k: int| 0 <= k < x.rows.len() && (#[trigger] x.rows[k]).synced == SYNC_CHO_GUI implies exists|j: int|
        0 <= j < v.rows.len() && v.rows[j].id == x.rows[k].id && v.rows[j].synced == SYNC_CHO_GUI by {
        lemma_survivors_from(v.rows, v.rows, cutoff, k);
        let j = choose|j: int| 0 <= j < v.rows.len() && v.rows[j] == x.rows[k];
        assert(v.rows[j] == x.rows[k]);
    }
}

/// Sending marks exactly the rows whose ids were sent.
pub proof fn lemma_mark_sent(v: StoreView, q: Seq<ItemView>)
    ensures
        mark_sent(v, q).rows.len() == v.rows.len(),
        mark_sent(v, q).seen == v.seen,
        forall|k: int|
            0 <= k < v.rows.len() ==> #[trigger] mark_sent(v, q).rows[k] == (if exists|i: int|
                0 <= i < q.len() && q[i].id == v.rows[k].id {
                RowView { synced: SYNC_DA_GUI, ..v.rows[k] }
            } else {
                v.rows[k]
            }),
    decreases q.len(),
{
    if q.len() > 0 {
        let q2 = q.drop_last();
        lemma_mark_sent(v, q2);
        assert forall|k: int| 0 <= k < v.rows.len() implies #[trigger] mark_sent(v, q).rows[k] == (if exists|i: int|
            0 <= i < q.len() && q[i].id == v.rows[k].id {
            RowView { synced: SYNC_DA_GUI, ..v.rows[k] }
        } else {
            v.rows[k]
        }) by {
            let w = mark_sent(v, q2);
            assert(w.rows[k].id == v.rows[k].id);
            if exists|i: int| 0 <= i < q2.len() && q2[i].id == v.rows[k].id {
                let i = choose|i: int| 0 <= i < q2.len() && q2[i].id == v.rows[k].id;
                assert(q[i].id == v.rows[k].id);
            }
            if exists|i: int| 0 <= i < q.len() && q[i].id == v.rows[k].id {
                let i = choose|i: int| 0 <= i < q.len() && q[i].id == v.rows[k].id;
                if i < q.len() - 1 {
                    assert(q2[i].id == v.rows[k].id);
                }
            }
        }
    }
}

/// Once every queued item is marked sent, nothing is left queued.
proof fn lemma_all_sent(v: StoreView, q: Seq<ItemView>)
    requires
        is_listing(v, v.rows.len() + 1, true, true, q),
        q.len() <= v.rows.len(),
    ensures
        forall|k: int|
            0 <= k < mark_sent(v, q).rows.len() ==> (#[trigger] mark_sent(v, q).rows[k]).synced != SYNC_CHO_GUI,
{
    lemma_mark_sent(v, q);
    assert forall|k: int| 0 <= k < mark_sent(v, q).rows.len() implies (#[trigger] mark_sent(v, q).rows[k]).synced
        != SYNC_CHO_GUI by {
        if v.rows[k].synced == SYNC_CHO_GUI {
            assert(crate::store::qualifies(v.rows[k], true));
            assert(exists|i: int| 0 <= i < q.len() && q[i].id == v.rows[k].id);
        }
    }
}

/// What a push puts for an item is what the peer's inbox pass accepts: the
/// object opens to the payload of the item's text and time.
pub proof fn lemma_put_is_accepted(key: Seq<u8>, peer: Seq<char>, it: ItemView, c: MailboxCall)
    requires
        put_of(key, peer, it, c),
    ensures
        opened_payload(key, c->Put_blob) == Some(text_payload(it.body, it.updated_at)),
{
    lemma_sent_text_accepted(key, c->Put_blob, it.body, it.updated_at);
}

/// Once a push succeeded, the next push has nothing to send: no row of the
/// store is queued, so the queue it lists is empty.
pub proof fn lemma_nothing_left_to_send(v: StoreView, q: Seq<ItemView>)
    requires
        forall|k: int| 0 <= k < v.rows.len() ==> (#[trigger] v.rows[k]).synced != SYNC_CHO_GUI,
        is_listing(v, v.rows.len() + 1, true, true, q),
    ensures
        q.len() == 0,
{
    if q.len() > 0 {
        let t = q[0];
        let k = choose|k: int|
            0 <= k < v.rows.len() && crate::store::qualifies(v.rows[k], true) && t == crate::store::item_of(
                #[trigger] v.rows[k],
            );
        assert(0 <= k < v.rows.len() && crate::store::qualifies(v.rows[k], true));
        assert(v.rows[k].synced != SYNC_CHO_GUI);
    }
}

/// What one machine sends for a text is what the other takes in: an object
/// whose contents open under the shared key to the payload built for `body`
/// at `ts` is accepted, with that body and time stamp.
pub proof fn lemma_sent_text_accepted(key: Seq<u8>, blob: Seq<u8>, body: Seq<char>, ts: i64)
    requires
        decrypt_spec(key, blob) == Some(payload_text(text_payload(body, ts))),
    ensures
        opened_payload(key, blob) == Some(text_payload(body, ts)),
{
    let pt = payload_text(text_payload(body, ts));
    assert(payload_text(text_payload(body, ts)) == pt);
    let q = choose|q: PayloadView| #[trigger] payload_text(q) == pt;
    lemma_payload_text_injective(q, text_payload(body, ts));
}

#[derive(Debug)]
pub enum SyncError {
    Store(StoreError),
    Crypto(CryptoError),
    Mailbox(MailboxError),
}

/// Object key naming: a ULID, from the current time and random bits.
///
/// Trusted: wraps `ulid::Ulid::new` and its `to_string`. Claims what the
/// crate's encoder writes: 26 characters (`ULID_LEN`), each a digit or an
/// upper-case letter of its Crockford alphabet. Nothing of the value is
/// claimed: it comes from the clock and random bits.
#[verifier::external_body]
fn new_ulid() -> (r: String)
    ensures
        r@.len() == 26,
        forall|i: int| 0 <= i < 26 ==> is_ulid_char(#[trigger] r@[i]),
{
    ulid::Ulid::new().to_string()
}

/// A character of a ULID's text: a digit or an upper-case letter.
pub open spec fn is_ulid_char(c: char) -> bool {
    ('0' <= c && c <= '9') || ('A' <= c && c <= 'Z')
}

/// Sends the local queue to the peer's inbox and takes in the own inbox.
pub struct Syncer<M: Mailbox> {
    mailbox: M,
    key: SecretKey,
    /// `inbox/<this machine>/`: only this machine lists, reads and deletes here.
    hop_thu_minh: String,
    /// `inbox/<peer>/`: only put to, never read.
    hop_thu_peer: String,
    /// Every call made on the mailbox so far, with what came back.
    calls: Ghost<Seq<MailboxCall>>,
}

impl<M: Mailbox> Syncer<M> {
    pub closed spec fn key_view(&self) -> Seq<u8> {
        self.key@
    }

    pub closed spec fn own_inbox(&self) -> Seq<char> {
        self.hop_thu_minh@
    }

    pub closed spec fn peer_inbox(&self) -> Seq<char> {
        self.hop_thu_peer@
    }

    pub closed spec fn mailbox_view(&self) -> M {
        self.mailbox
    }

    /// The calls made on the mailbox so far, in order.
    pub closed spec fn log(&self) -> Seq<MailboxCall> {
        self.calls@
    }

    /// The same mailbox, key and inboxes as `other`.
    pub open spec fn same_setup(&self, other: Self) -> bool {
        &&& self.mailbox_view() == other.mailbox_view()
        &&& self.key_view() == other.key_view()
        &&& self.own_inbox() == other.own_inbox()
        &&& self.peer_inbox() == other.peer_inbox()
    }

    pub fn new(mailbox: M, key: SecretKey, hop_thu_minh: String, hop_thu_peer: String) -> (r: Self)
        ensures
            r.mailbox_view() == mailbox,
            r.key_view() == key@,
            r.own_inbox() == hop_thu_minh@,
            r.peer_inbox() == hop_thu_peer@,
            r.log() == Seq::<MailboxCall>::empty(),
    {
        Syncer { mailbox, key, hop_thu_minh, hop_thu_peer, calls: Ghost(Seq::empty()) }
    }

    pub fn mailbox(&self) -> (r: &M)
        ensures
            *r == self.mailbox_view(),
    {
        &self.mailbox
    }

    fn list_logged(&mut self, prefix: &str) -> (r: Result<Vec<String>, MailboxError>)
        ensures
            final(self).same_setup(*old(self)),
            final(self).log() == old(self).log().push(
                MailboxCall::List {
                    prefix: prefix@,
                    keys: listed(r),
                },
            ),
    {
        let r = self.mailbox.list(prefix);
        self.calls = Ghost(
            self.calls@.push(
                MailboxCall::List {
                    prefix: prefix@,
                    keys: listed(r),
                },
            ),
        );
        r
    }

    fn get_logged(&mut self, key: &str) -> (r: Result<Vec<u8>, MailboxError>)
        ensures
            final(self).same_setup(*old(self)),
            final(self).log() == old(self).log().push(
                MailboxCall::Get {
                    key: key@,
                    blob: got(r),
                },
            ),
    {
        let r = self.mailbox.get(key);
        self.calls = Ghost(
            self.calls@.push(
                MailboxCall::Get {
                    key: key@,
                    blob: got(r),
                },
            ),
        );
        r
    }

    fn put_logged(&mut self, key: &str, blob: &[u8]) -> (r: Result<(), MailboxError>)
        ensures
            final(self).same_setup(*old(self)),
            final(self).log() == old(self).log().push(MailboxCall::Put { key: key@, blob: blob@, ok: r is Ok }),
    {
        let r = self.mailbox.put(key, blob);
        self.calls = Ghost(self.calls@.push(MailboxCall::Put { key: key@, blob: blob@, ok: r is Ok }));
        r
    }

    fn delete_logged(&mut self, key: &str) -> (r: Result<(), MailboxError>)
        ensures
            final(self).same_setup(*old(self)),
            final(self).log() == old(self).log().push(MailboxCall::Delete { key: key@, ok: r is Ok }),
    {
        let r = self.mailbox.delete(key);
        self.calls = Ghost(self.calls@.push(MailboxCall::Delete { key: key@, ok: r is Ok }));
        r
    }

    /// Takes in one object read from the own inbox under `key`, at time
    /// `now`. An object that does not open, does not hold a payload, or
    /// fails the payload checks changes nothing and gives `None`: it stays
    /// in the mailbox and is not marked seen (a wrong passphrase may be
    /// temporary). An accepted one is written to the history as never to be
    /// sent back, its key is marked seen, and its time stamp and text are
    /// returned.
    pub fn take_in(&self, store: &mut Store, key: &str, blob: &[u8], now: i64) -> (r: Result<
        Option<(i64, String)>,
        StoreError,
    >)
        requires
            old(store).wf(),
        ensures
            final(store).wf(),
            match opened_payload(self.key_view(), blob@) {
                None => r matches Ok(None) && final(store)@ == old(store)@,
                Some(p) => match r {
                    Ok(Some((ts, body))) => ts == p.ts && body@ == p.body && upsert_result(old(store)@, p.hash) is Ok
                        && final(store)@ == accept_spec(old(store)@, p, key@, now),
                    Ok(None) => false,
                    Err(e) => e is IdsExhausted && upsert_result(old(store)@, p.hash) is Err && final(store)@ == old(
                        store,
                    )@,
                },
            },
    {
        let pt = match self.key.decrypt(blob) {
            Ok(m) => m,
            Err(_) => return Ok(None),
        };
        let p = match Payload::from_json(pt.as_slice()) {
            Some(p) => p,
            None => return Ok(None),
        };
        proof {
            let q = choose|q: PayloadView| #[trigger] payload_text(q) == pt@;
            lemma_payload_text_injective(q, p@);
        }
        match p.kiem_tra() {
            Ok(()) => {},
            Err(_) => return Ok(None),
        }
        match store.upsert_remote(p.hash.as_str(), p.body.as_str(), p.ts) {
            Err(e) => return Err(e),
            Ok(_) => {},
        }
        let _ = store.ghi_nhan_da_thay_at(key, now);
        Ok(Some((p.ts, p.body)))
    }
    /// Sends `queue` in order; stops at the first failure.
    fn send_all(&mut self, store: &mut Store, queue: &Vec<crate::store::Item>) -> (r: Result<usize, SyncError>)
        requires
            old(store).wf(),
        ensures
            final(store).wf(),
            final(self).same_setup(*old(self)),
            exists|c: Seq<MailboxCall>|
                final(self).log() == old(self).log() + c && #[trigger] send_run(
                    old(self).key_view(),
                    old(self).peer_inbox(),
                    old(store)@,
                    item_views(queue@),
                    c,
                    final(store)@,
                    r,
                ),
    {
        let ghost v0 = store@;
        let ghost log0 = self.log();
        let ghost q = item_views(queue@);
        let ghost k = self.key_view();
        let ghost peer = self.peer_inbox();
        let ghost mut cs: Seq<MailboxCall> = Seq::empty();
        let mut n: usize = 0;
        assert(q.take(0) =~= Seq::<ItemView>::empty());
        assert(self.log() =~= log0 + cs);
        while n < queue.len()
            invariant
                store.wf(),
                n <= queue@.len(),
                q == item_views(queue@),
                v0 == old(store)@,
                store@ == mark_sent(v0, q.take(n as int)),
                self.same_setup(*old(self)),
                k == old(self).key_view(),
                peer == old(self).peer_inbox(),
                log0 == old(self).log(),
                self.log() == log0 + cs,
                cs.len() == n,
                forall|i: int| 0 <= i < n ==> put_of(k, peer, q[i], #[trigger] cs[i]),
                forall|i: int| 0 <= i < n ==> put_ok(#[trigger] cs[i]),
            decreases queue@.len() - n,
        {
            let item = &queue[n];
            let payload = Payload::text(item.body.as_str(), item.updated_at);
            let plain = payload.to_json();
            let blob = match self.key.encrypt(plain.as_slice()) {
                Ok(b) => b,
                Err(e) => {
                    let r = Err(SyncError::Crypto(e));
                    proof {
                        if cs.len() > 0 {
                            assert(put_ok(cs[cs.len() - 1]));
                        }
                        assert(send_run(k, peer, v0, q, cs, store@, r));
                    }
                    return r;
                },
            };
            let object_key = self.hop_thu_peer.clone().concat(new_ulid().as_str());
            proof {
                assert(object_key@.take(peer.len() as int) =~= peer);
            }
            let sent = self.put_logged(object_key.as_str(), blob.as_slice());
            let ghost call = MailboxCall::Put { key: object_key@, blob: blob@, ok: sent is Ok };
            proof {
                assert(put_of(k, peer, q[n as int], call));
                assert(self.log() =~= log0 + cs.push(call));
                cs = cs.push(call);
                assert forall|i: int| 0 <= i < n implies put_of(k, peer, q[i], #[trigger] cs[i]) && put_ok(cs[i]) by {
                    assert(cs[i] == cs.drop_last()[i]);
                }
            }
            match sent {
                Ok(()) => {},
                Err(e) => {
                    let r = Err(SyncError::Mailbox(e));
                    proof {
                        assert(cs.last() == call);
                        assert(q.take(cs.len() - 1) =~= q.take(n as int));
                        assert(send_run(k, peer, v0, q, cs, store@, r));
                    }
                    return r;
                },
            }
            let _ = store.dat_synced(item.id, SYNC_DA_GUI);
            proof {
                assert(q.take(n + 1).drop_last() =~= q.take(n as int));
                assert(q.take(n + 1).last() == q[n as int]);
                assert(store@ =~= mark_sent(v0, q.take(n + 1)));
            }
            n += 1;
        }
        let r = Ok(n);
        proof {
            assert(q.take(q.len() as int) =~= q);
            if cs.len() > 0 {
                assert(put_ok(cs[cs.len() - 1]));
            }
            assert(send_run(k, peer, v0, q, cs, store@, r));
        }
        r
    }

    /// Pushes the send queue to the peer's inbox, oldest first, one object
    /// per item under the peer's prefix and a fresh ULID, holding the item's
    /// payload sealed under the shared key. On the first failure it stops
    /// and keeps the rest of the queue as it is: nothing is lost, the next
    /// poll sends it. Returns how many items were sent. Nothing but these
    /// puts is asked of the mailbox.
    pub fn push_pending(&mut self, store: &mut Store) -> (r: Result<usize, SyncError>)
        requires
            old(store).wf(),
        ensures
            final(store).wf(),
            final(self).same_setup(*old(self)),
            exists|q: Seq<ItemView>, c: Seq<MailboxCall>|
                is_listing(old(store)@, old(store)@.rows.len() + 1, true, true, q) && final(self).log()
                    == old(self).log() + c && #[trigger] send_run(
                    old(self).key_view(),
                    old(self).peer_inbox(),
                    old(store)@,
                    q,
                    c,
                    final(store)@,
                    r,
                ),
            r is Ok ==> forall|k: int|
                0 <= k < final(store)@.rows.len() ==> (#[trigger] final(store)@.rows[k]).synced != SYNC_CHO_GUI,
    {
        let queue = match store.cho_gui() {
            Ok(l) => l,
            Err(e) => return Err(SyncError::Store(e)),
        };
        let ghost q = item_views(queue@);
        let r = self.send_all(store, &queue);
        proof {
            if r is Ok {
                lemma_all_sent(old(store)@, q);
            }
        }
        r
    }

    /// Reads the whole own inbox and returns the **single** text to put on
    /// the clipboard: the accepted item with the latest time stamp (the
    /// first of them on a tie). Lists the own inbox, then handles each
    /// listed key in order as `key_step` says: seen keys (an earlier delete
    /// failed) are deleted again and not processed twice; objects that
    /// cannot be fetched, opened or checked are kept and not marked seen;
    /// accepted ones go into the history, are marked seen, then deleted.
    /// Nothing is ever put. The history and the seen keys are pruned at the
    /// end. The caller sets the echo guard before writing the clipboard.
    pub fn ingest(&mut self, store: &mut Store) -> (r: Result<Option<String>, SyncError>)
        requires
            old(store).wf(),
        ensures
            final(store).wf(),
            final(self).same_setup(*old(self)),
            queue_within(final(store)@, old(store)@),
            exists|c: Seq<MailboxCall>|
                final(self).log() == old(self).log() + c && #[trigger] ingest_run(
                    old(self).key_view(),
                    old(self).own_inbox(),
                    old(store)@,
                    c,
                    final(store)@,
                    r,
                ),
    {
        let ghost v0 = store@;
        let ghost log0 = self.log();
        let ghost k = self.key_view();
        let ghost own_v = self.own_inbox();
        let own = self.hop_thu_minh.clone();
        let keys = match self.list_logged(own.as_str()) {
            Ok(ks) => ks,
            Err(e) => {
                let r = Err(SyncError::Mailbox(e));
                proof {
                    let c = seq![self.log().last()];
                    assert(self.log() =~= log0 + c);
                    assert(ingest_run(k, own_v, v0, c, store@, r));
                }
                return r;
            },
        };
        let ghost kv = keys_view(keys@);
        let ghost head = self.log();
        let ghost mut cs: Seq<MailboxCall> = Seq::empty();
        let ghost mut nows: Seq<i64> = Seq::empty();
        proof {
            lemma_queue_within_refl(v0);
            assert(kv.take(0) =~= Seq::<Seq<char>>::empty());
            assert(self.log() =~= head + cs);
            assert(head =~= log0 + seq![head.last()]);
        }
        let mut newest: Option<(i64, String)> = None;
        let mut i: usize = 0;
        while i < keys.len()
            invariant
                store.wf(),
                i <= keys@.len(),
                kv == keys_view(keys@),
                v0 == old(store)@,
                k == old(self).key_view(),
                log0 == old(self).log(),
                self.same_setup(*old(self)),
                head == log0 + seq![MailboxCall::List { prefix: own_v, keys: Some(kv) }],
                own_v == old(self).own_inbox(),
                self.log() == head + cs,
                queue_within(store@, v0),
                pass(k, v0, None, kv.take(i as int), cs, nows) == Some((store@, best_view(newest))),
            decreases keys@.len() - i,
        {
            let key = keys[i].as_str();
            let ghost before = store@;
            let ghost best0 = best_view(newest);
            proof {
                assert(kv[i as int] == key@);
            }
            let seen = match store.da_thay(key) {
                Ok(b) => b,
                Err(e) => return Err(SyncError::Store(e)),
            };
            if seen {
                let dr = self.delete_logged(key);
                proof {
                    let d = seq![MailboxCall::Delete { key: key@, ok: dr is Ok }];
                    lemma_ingest_step(k, v0, kv, i as int, cs, nows, key@, d, Seq::empty());
                    assert(nows + Seq::<i64>::empty() =~= nows);
                    assert(self.log() =~= head + (cs + d));
                    cs = cs + d;
                }
                i += 1;
                continue;
            }
            let fetched_blob = self.get_logged(key);
            let ghost get_call = MailboxCall::Get { key: key@, blob: got(fetched_blob) };
            let blob = match fetched_blob {
                Ok(b) => b,
                Err(_) => {
                    proof {
                        let d = seq![get_call];
                        lemma_ingest_step(k, v0, kv, i as int, cs, nows, key@, d, Seq::empty());
                        assert(nows + Seq::<i64>::empty() =~= nows);
                        assert(self.log() =~= head + (cs + d));
                        cs = cs + d;
                    }
                    i += 1;
                    continue;
                },
            };
            let now = now_ms();
            match self.take_in(store, key, blob.as_slice(), now) {
                Err(e) => {
                    let r = Err(SyncError::Store(e));
                    proof {
                        let c = seq![head.last()] + cs.push(get_call);
                        assert(self.log() =~= log0 + c);
                        assert(c.drop_first().drop_last() =~= cs);
                        assert(c[0] == head.last());
                        assert(is_get_of(c.last(), kv[i as int]));
                        assert(pass(k, v0, None, kv.take(i as int), c.drop_first().drop_last(), nows) is Some);
                        assert(ingest_run(k, own_v, v0, c, store@, r));
                    }
                    return r;
                },
                Ok(None) => {
                    proof {
                        let d = seq![get_call];
                        lemma_ingest_step(k, v0, kv, i as int, cs, nows, key@, d, Seq::empty());
                        assert(nows + Seq::<i64>::empty() =~= nows);
                        assert(self.log() =~= head + (cs + d));
                        cs = cs + d;
                        lemma_queue_within_refl(before);
                    }
                },
                Ok(Some((ts, body))) => {
                    proof {
                        let p = opened_payload(k, blob@).unwrap();
                        lemma_remote_not_queued(before, p.hash, p.body, p.ts, key@, now);
                        lemma_queue_within_trans(store@, before, v0);
                    }
                    let dr = self.delete_logged(key);
                    let later = match &newest {
                        None => true,
                        Some((t, _)) => ts > *t,
                    };
                    if later {
                        newest = Some((ts, body));
                    }
                    proof {
                        let d = seq![get_call, MailboxCall::Delete { key: key@, ok: dr is Ok }];
                        lemma_ingest_step(k, v0, kv, i as int, cs, nows, key@, d, seq![now]);
                        assert(self.log() =~= head + (cs + d));
                        cs = cs + d;
                        nows = nows + seq![now];
                    }
                },
            }
            i += 1;
        }
        let ghost v1 = store@;
        let now = now_ms();
        let _ = store.prune_at(now);
        proof {
            lemma_prune_not_queued(v1, crate::store::age_cutoff(now));
            lemma_queue_within_trans(store@, v1, v0);
        }
        let ghost v2 = store@;
        let _ = store.prune_seen_at(now);
        let r = match newest {
            Some((_, b)) => Ok(Some(b)),
            None => Ok(None),
        };
        proof {
            assert forall|m: int| 0 <= m < store@.rows.len() && (#[trigger] store@.rows[m]).synced == SYNC_CHO_GUI implies exists|j: int|
                0 <= j < v0.rows.len() && v0.rows[j].id == store@.rows[m].id && v0.rows[j].synced == SYNC_CHO_GUI by {
                assert(store@.rows[m] == v2.rows[m]);
            }
            let c = seq![head.last()] + cs;
            assert(self.log() =~= log0 + c);
            assert(c.drop_first() =~= cs);
            assert(kv.take(keys@.len() as int) =~= kv);
            assert(store@ == finish_spec(pass(k, v0, None, kv, cs, nows).unwrap().0, now));
            assert(ingest_run(k, own_v, v0, c, store@, r));
        }
        r
    }
}

/// One more listed key handled after the first `i`.
proof fn lemma_ingest_step(
    k: Seq<u8>,
    v0: StoreView,
    kv: Seq<Seq<char>>,
    i: int,
    cs: Seq<MailboxCall>,
    nows: Seq<i64>,
    key: Seq<char>,
    d: Seq<MailboxCall>,
    n: Seq<i64>,
)
    requires
        0 <= i < kv.len(),
        kv[i] == key,
        pass(k, v0, None, kv.take(i), cs, nows) is Some,
        key_step(k, pass(k, v0, None, kv.take(i), cs, nows).unwrap().0, pass(k, v0, None, kv.take(i), cs, nows).unwrap().1, key, d, n) is Some,
        key_step(k, pass(k, v0, None, kv.take(i), cs, nows).unwrap().0, pass(k, v0, None, kv.take(i), cs, nows).unwrap().1, key, d, n).unwrap().2 == d.len(),
        key_step(k, pass(k, v0, None, kv.take(i), cs, nows).unwrap().0, pass(k, v0, None, kv.take(i), cs, nows).unwrap().1, key, d, n).unwrap().3 == n.len(),
    ensures
        pass(k, v0, None, kv.take(i + 1), cs + d, nows + n) == Some((
            key_step(k, pass(k, v0, None, kv.take(i), cs, nows).unwrap().0, pass(k, v0, None, kv.take(i), cs, nows).unwrap().1, key, d, n).unwrap().0,
            key_step(k, pass(k, v0, None, kv.take(i), cs, nows).unwrap().0, pass(k, v0, None, kv.take(i), cs, nows).unwrap().1, key, d, n).unwrap().1,
        )),
{
    assert(kv.take(i + 1) =~= kv.take(i).push(key));
    lemma_pass_push(k, v0, None, kv.take(i), cs, nows, key, d, n);
}

} // verus!
