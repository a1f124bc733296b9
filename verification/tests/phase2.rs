//! Sync through a fake mailbox: one direction, echo guard, byte-exact round
//! trip, bad payloads, config checks, offline queue.

use std::collections::HashMap;
use std::sync::atomic::{AtomicUsize, Ordering};
use std::sync::{Arc, Mutex};
use x2clip_core::clip::{hash_text, Clipboard, ClipboardError};
use x2clip_core::config::{Config, CryptoConfig, MailboxConfig};
use x2clip_core::crypto::{derive_key, SecretKey};
use x2clip_core::mailbox::{Mailbox, MailboxError, MailboxResult};
use x2clip_core::store::{Store, SYNC_CHO_GUI, SYNC_DA_GUI, SYNC_KHONG_GUI};
use x2clip_core::sync::{Payload, Syncer};
use x2clip_core::watcher::Watcher;

// ── fake mailbox ───────────────────────────────────────────────────────────

/// One bucket shared by both nodes of a test; clones share the memory, as
/// two machines looking at one bucket.
#[derive(Clone, Default)]
struct FakeMailbox {
    objects: Arc<Mutex<HashMap<String, Vec<u8>>>>,
    so_lan_put: Arc<AtomicUsize>,
    delete_luon_hong: bool,
    offline: Arc<Mutex<bool>>,
}

impl FakeMailbox {
    fn keys_voi_prefix(&self, prefix: &str) -> Vec<String> {
        let o = self.objects.lock().unwrap();
        let mut k: Vec<String> = o.keys().filter(|k| k.starts_with(prefix)).cloned().collect();
        k.sort();
        k
    }
    fn dat_offline(&self, v: bool) {
        *self.offline.lock().unwrap() = v;
    }
    fn kiem_tra_online(&self) -> MailboxResult<()> {
        if *self.offline.lock().unwrap() {
            Err(MailboxError::Network("giả lập mất mạng".into()))
        } else {
            Ok(())
        }
    }
}

impl Mailbox for FakeMailbox {
    fn put(&self, key: &str, body: &[u8]) -> MailboxResult<()> {
        self.kiem_tra_online()?;
        self.so_lan_put.fetch_add(1, Ordering::SeqCst);
        self.objects.lock().unwrap().insert(key.to_string(), body.to_vec());
        Ok(())
    }
    fn list(&self, prefix: &str) -> MailboxResult<Vec<String>> {
        self.kiem_tra_online()?;
        Ok(self.keys_voi_prefix(prefix))
    }
    fn get(&self, key: &str) -> MailboxResult<Vec<u8>> {
        self.kiem_tra_online()?;
        self.objects
            .lock()
            .unwrap()
            .get(key)
            .cloned()
            .ok_or_else(|| MailboxError::Other(format!("không có {key}")))
    }
    fn delete(&self, key: &str) -> MailboxResult<()> {
        self.kiem_tra_online()?;
        if self.delete_luon_hong {
            return Err(MailboxError::Other("giả lập DELETE hỏng".into()));
        }
        self.objects.lock().unwrap().remove(key);
        Ok(())
    }
}

const PASSPHRASE: &str = "cai-nay-la-passphrase-that-cua-toi";

fn khoa() -> SecretKey {
    // A fixed salt so that both nodes of a test get the same key.
    derive_key(PASSPHRASE, &[7u8; 16]).unwrap()
}

fn syncer(mb: FakeMailbox, minh: &str, peer: &str) -> Syncer<FakeMailbox> {
    Syncer::new(mb, khoa(), format!("inbox/{minh}/"), format!("inbox/{peer}/"))
}

#[derive(Default)]
struct FakeClipboard {
    text: Option<String>,
}
impl Clipboard for FakeClipboard {
    fn get_text(&mut self) -> Option<String> {
        self.text.clone()
    }
    fn set_text(&mut self, text: &str) -> Result<(), ClipboardError> {
        self.text = Some(text.to_string());
        Ok(())
    }
}

/// A copy of the store as a restart would reload it.
fn mo_lai(store: &Store) -> Store {
    Store::from_parts(store.rows().clone(), store.seen().clone()).unwrap()
}

// ── T2: one direction, no echo ─────────────────────────────────────────────

#[test]
fn t2_mot_chieu_khong_bong_ban() {
    let mb = FakeMailbox::default();
    let (mut a, mut b) = (syncer(mb.clone(), "A", "B"), syncer(mb.clone(), "B", "A"));
    let (mut store_a, mut store_b) = (Store::open_memory().unwrap(), Store::open_memory().unwrap());

    store_a.upsert_text(&hash_text("gửi đi"), "gửi đi").unwrap();
    assert_eq!(a.push_pending(&mut store_a).unwrap(), 1);

    assert_eq!(mb.keys_voi_prefix("inbox/B/").len(), 1);
    assert_eq!(mb.keys_voi_prefix("inbox/A/").len(), 0);

    assert_eq!(b.ingest(&mut store_b).unwrap().as_deref(), Some("gửi đi"));
    assert_eq!(b.push_pending(&mut store_b).unwrap(), 0, "B không được PUT ngược lại");
    assert_eq!(mb.keys_voi_prefix("inbox/A/").len(), 0);

    for _ in 0..3 {
        b.ingest(&mut store_b).unwrap();
        b.push_pending(&mut store_b).unwrap();
        a.ingest(&mut store_a).unwrap();
        a.push_pending(&mut store_a).unwrap();
    }
    assert!(
        mb.so_lan_put.load(Ordering::SeqCst) <= 5,
        "số PUT phải có trần, đang là {}",
        mb.so_lan_put.load(Ordering::SeqCst)
    );
}

// ── T3: echo guard on the real path ────────────────────────────────────────

#[test]
fn t3_echo_guard_tren_duong_that() {
    let mb = FakeMailbox::default();
    let (mut a, mut b) = (syncer(mb.clone(), "A", "B"), syncer(mb.clone(), "B", "A"));
    let mut store_a = Store::open_memory().unwrap();
    store_a.upsert_text(&hash_text("từ máy A"), "từ máy A").unwrap();
    a.push_pending(&mut store_a).unwrap();

    let mut w = Watcher::new(FakeClipboard::default(), Store::open_memory().unwrap());
    let nhan = b.ingest(w.store_mut()).unwrap().expect("phải có item");
    w.apply_remote(&nhan).unwrap();

    assert_eq!(w.tick().unwrap(), None, "echo không được thành item mới");
    let truoc = mb.so_lan_put.load(Ordering::SeqCst);
    assert_eq!(b.push_pending(w.store_mut()).unwrap(), 0);
    assert_eq!(mb.so_lan_put.load(Ordering::SeqCst), truoc, "N7 — 0 echo");
}

// ── T6: byte-exact round trip ──────────────────────────────────────────────

#[test]
fn t6_round_trip_giu_nguyen_tung_byte() {
    let mb = FakeMailbox::default();
    let (mut a, mut b) = (syncer(mb.clone(), "A", "B"), syncer(mb.clone(), "B", "A"));
    let (mut store_a, mut store_b) = (Store::open_memory().unwrap(), Store::open_memory().unwrap());

    let dai = "x".repeat(100_000);
    let mau = [
        "tiếng Việt có dấu: Ăn Quả Nhớ Kẻ Trồng Cây",
        "emoji 🇻🇳🍜 và tab\tnewline\ndòng hai",
        "  khoảng trắng đầu cuối  ",
        &dai,
    ];
    for s in mau {
        store_a.upsert_text(&hash_text(s), s).unwrap();
    }
    a.push_pending(&mut store_a).unwrap();
    b.ingest(&mut store_b).unwrap();

    let lich_su = store_b.list(100).unwrap();
    for s in mau {
        assert!(
            lich_su.iter().any(|i| i.body == s),
            "mất nguyên vẹn nội dung: {:?}",
            &s[..s.len().min(30)]
        );
    }

    // An empty text is never sent.
    let mut w = Watcher::new(FakeClipboard::default(), Store::open_memory().unwrap());
    w.clip_mut().set_text("").unwrap();
    assert_eq!(w.tick().unwrap(), None);
    assert_eq!(w.store().count().unwrap(), 0);
}

// ── T8: garbage payloads ───────────────────────────────────────────────────

#[test]
fn t8_payload_hong_thi_bo_qua_va_giu_lai() {
    let mb = FakeMailbox::default();
    let mut b = syncer(mb.clone(), "B", "A");
    let key = khoa();
    let mut store = Store::open_memory().unwrap();

    let rac: Vec<(&str, Vec<u8>)> = vec![
        ("khong-phai-json", key.encrypt(b"day khong phai json").unwrap()),
        (
            "sai-phien-ban",
            key.encrypt(br#"{"v":99,"kind":"text","hash":"x","body":"a","ts":1}"#).unwrap(),
        ),
        (
            "kind-la",
            key.encrypt(br#"{"v":1,"kind":"video/mp4","hash":"x","body":"a","ts":1}"#).unwrap(),
        ),
        ("thieu-truong", key.encrypt(br#"{"v":1,"kind":"text","ts":1}"#).unwrap()),
        (
            "hash-khong-khop",
            key.encrypt(br#"{"v":1,"kind":"text","hash":"deadbeef","body":"a","ts":1}"#).unwrap(),
        ),
        ("object-rong", Vec::new()),
        ("header-cut", vec![1u8; 10]),
    ];
    for (ten, blob) in &rac {
        mb.put(&format!("inbox/B/{ten}"), blob).unwrap();
    }

    assert_eq!(b.ingest(&mut store).unwrap(), None, "không có gì được lên clipboard");
    assert_eq!(store.count().unwrap(), 0, "không có gì lọt vào lịch sử");
    assert_eq!(
        mb.keys_voi_prefix("inbox/B/").len(),
        rac.len(),
        "object hỏng phải được giữ nguyên, không xoá"
    );
}

// ── T9: config checks ──────────────────────────────────────────────────────

fn cau_hinh(machine: &str, peer: &str, co_mailbox: bool) -> Config {
    Config {
        machine: machine.to_string(),
        peer: peer.to_string(),
        poll_secs: 30,
        mailbox: if co_mailbox {
            Some(MailboxConfig {
                endpoint: "https://x.r2.cloudflarestorage.com".to_string(),
                bucket: "b".to_string(),
                region: "auto".to_string(),
                access_key_id: "k".to_string(),
                secret_access_key: "s".to_string(),
            })
        } else {
            None
        },
        crypto: Some(CryptoConfig { salt: "07".repeat(16), passphrase_file: None }),
    }
}

#[test]
fn t9_config() {
    // Template file: local-only, with a 16-byte salt.
    let salt_hex: String = "0a".repeat(16);
    let mau_text = x2clip_core::config::mau_mac_dinh("may-nay", "peer", &salt_hex);
    assert!(mau_text.contains("# [mailbox]"), "chưa cấu hình hộp thư = local-only");
    let cfg = cau_hinh("may-nay", "peer", false);
    assert_eq!(cfg.salt().unwrap().len(), 16);

    // machine == peer with [mailbox]: sending to itself forever. Refused.
    let err = cau_hinh("a", "a", true).kiem_tra_ten_may().unwrap_err().to_string();
    assert!(err.contains("vòng lặp"), "{err}");

    // The same without a mailbox is local-only and fine.
    cau_hinh("a", "a", false).kiem_tra_ten_may().expect("local-only không cần peer hợp lệ");

    // Template names must not enable sync.
    let err = cau_hinh("may-nay", "peer", true).kiem_tra_ten_may().unwrap_err().to_string();
    assert!(err.contains("giá trị mẫu"), "{err}");

    // A wrong access key must be told apart from a lost connection.
    let auth = MailboxError::Auth("HTTP 403".into()).to_string();
    let net = MailboxError::Network("timeout".into()).to_string();
    assert!(auth.contains("access key") && !net.contains("access key"));
}

// ── T11: the other machine was off ─────────────────────────────────────────

#[test]
fn t11_ba_copy_khi_b_dang_tat() {
    let mb = FakeMailbox::default();
    let (mut a, mut b) = (syncer(mb.clone(), "A", "B"), syncer(mb.clone(), "B", "A"));
    let (mut store_a, mut store_b) = (Store::open_memory().unwrap(), Store::open_memory().unwrap());

    for s in ["một", "hai", "ba"] {
        store_a.upsert_text(&hash_text(s), s).unwrap();
        cho_dong_ho();
    }
    a.push_pending(&mut store_a).unwrap();

    assert_eq!(b.ingest(&mut store_b).unwrap().as_deref(), Some("ba"), "chỉ mới nhất");
    assert_eq!(store_b.count().unwrap(), 3, "cả ba vào lịch sử — N8, 0 mất mát");
    assert_eq!(b.push_pending(&mut store_b).unwrap(), 0);
    assert_eq!(mb.keys_voi_prefix("inbox/A/").len(), 0);
}

// ── T13: a failed DELETE ───────────────────────────────────────────────────

#[test]
fn t13_delete_hong_khong_xu_ly_lai() {
    let mut mb = FakeMailbox::default();
    let mut a = syncer(mb.clone(), "A", "B");
    let mut store_a = Store::open_memory().unwrap();
    store_a.upsert_text(&hash_text("chỉ một lần"), "chỉ một lần").unwrap();
    a.push_pending(&mut store_a).unwrap();

    mb.delete_luon_hong = true;
    let mut b = syncer(mb.clone(), "B", "A");
    let mut store_b = Store::open_memory().unwrap();

    assert_eq!(b.ingest(&mut store_b).unwrap().as_deref(), Some("chỉ một lần"));
    assert_eq!(store_b.count().unwrap(), 1);

    store_b.upsert_text(&hash_text("mới hơn"), "mới hơn").unwrap();
    assert_eq!(
        b.ingest(&mut store_b).unwrap(),
        None,
        "object đã xử lý không được ghi đè clipboard mới hơn của B"
    );
    assert_eq!(store_b.count().unwrap(), 2, "không sinh row trùng");
}

// ── T14: tampering and a wrong key ─────────────────────────────────────────

#[test]
fn t14_lat_byte_va_sai_khoa() {
    let mb = FakeMailbox::default();
    let key = khoa();

    let mut blob = key.encrypt(br#"{"v":1,"kind":"text","hash":"x","body":"a","ts":1}"#).unwrap();
    let cuoi = blob.len() - 1;
    blob[cuoi] ^= 0x01;
    mb.put("inbox/B/lat-byte", &blob).unwrap();

    let khoa_khac = derive_key("passphrase hoàn toàn khác", &[9u8; 16]).unwrap();
    let p = Payload { v: 1, kind: "text".into(), hash: hash_text("bí mật"), body: "bí mật".into(), ts: 1 };
    let blob2 = khoa_khac.encrypt(&p.to_json()).unwrap();
    mb.put("inbox/B/sai-khoa", &blob2).unwrap();

    let mut b = syncer(mb.clone(), "B", "A");
    let mut store = Store::open_memory().unwrap();
    assert_eq!(b.ingest(&mut store).unwrap(), None);
    assert_eq!(store.count().unwrap(), 0);
    assert_eq!(mb.keys_voi_prefix("inbox/B/").len(), 2, "hai object đều phải được giữ lại");
}

// ── T15: object keys give nothing away ─────────────────────────────────────

#[test]
fn t15_key_khong_lo_noi_dung() {
    let mb = FakeMailbox::default();
    let mut a = syncer(mb.clone(), "A", "B");
    let mut store = Store::open_memory().unwrap();

    let noi_dung = "nội dung bí mật";
    let h = hash_text(noi_dung);
    store.upsert_text(&h, noi_dung).unwrap();
    a.push_pending(&mut store).unwrap();

    // Same content again: the hash is there, so the queue is set by hand.
    let (id, _) = store.upsert_text(&h, noi_dung).unwrap();
    store.dat_synced(id, SYNC_CHO_GUI).unwrap();
    a.push_pending(&mut store).unwrap();

    let keys = mb.keys_voi_prefix("inbox/B/");
    assert_eq!(keys.len(), 2, "cùng nội dung vẫn phải ra hai key khác nhau");
    for k in &keys {
        let ulid = k.strip_prefix("inbox/B/").expect("đúng prefix máy nhận");
        assert_eq!(ulid.len(), 26, "ULID 26 ký tự, key là {k}");
        assert!(ulid.chars().all(|c| c.is_ascii_alphanumeric()));
        assert!(!k.contains(&h) && !k.contains(noi_dung) && !k.contains("text"));
    }
}

// ── T12: secrets do not leak ───────────────────────────────────────────────

#[test]
fn t12_khong_ro_bi_mat() {
    let mb = FakeMailbox::default();
    let mut a = syncer(mb.clone(), "A", "B");
    let mut store = Store::open_memory().unwrap();
    store.upsert_text(&hash_text("dữ liệu"), "dữ liệu").unwrap();
    a.push_pending(&mut store).unwrap();

    for (k, v) in mb.objects.lock().unwrap().iter() {
        let raw = String::from_utf8_lossy(v);
        for bi_mat in [PASSPHRASE, "dữ liệu"] {
            assert!(!raw.contains(bi_mat), "{bi_mat} lộ trong object {k}");
            assert!(!k.contains(bi_mat), "{bi_mat} lộ trong key {k}");
        }
    }

    let err = khoa().decrypt(&[0u8; 50]).unwrap_err().to_string();
    assert!(!err.contains(PASSPHRASE));

    let mb_cfg = MailboxConfig {
        endpoint: "https://x.r2.cloudflarestorage.com".to_string(),
        bucket: "b".to_string(),
        region: "auto".to_string(),
        access_key_id: "AKIA-LO-RA-DAY".to_string(),
        secret_access_key: "SECRET-LO-RA-DAY".to_string(),
    };
    let d = mb_cfg.redacted();
    assert!(!d.contains("LO-RA-DAY"), "Debug làm lộ secret: {d}");
}

// ── T16: the queue survives a restart ──────────────────────────────────────

#[test]
fn t16_hang_cho_song_qua_restart() {
    let mb = FakeMailbox::default();
    mb.dat_offline(true);

    let truoc = {
        let mut store = Store::open_memory().unwrap();
        store.upsert_text(&hash_text("chờ gửi"), "chờ gửi").unwrap();
        let (id, _) = store.upsert_text(&hash_text("không gửi"), "không gửi").unwrap();
        store.dat_synced(id, SYNC_KHONG_GUI).unwrap();

        let mut a = syncer(mb.clone(), "A", "B");
        assert!(a.push_pending(&mut store).is_err(), "offline thì PUT phải lỗi");
        assert_eq!(store.cho_gui().unwrap().len(), 1, "item lỗi vẫn nằm trong hàng chờ");
        store
    };

    // "Restart": reload the store from its rows.
    let mut store = mo_lai(&truoc);
    let cho = store.cho_gui().unwrap();
    assert_eq!(cho.len(), 1, "hàng chờ phải sống qua restart");
    assert_eq!(cho[0].body, "chờ gửi");
    assert!(
        !cho.iter().any(|i| i.body == "không gửi"),
        "item 'không gửi' phải phân biệt được với hàng chờ, không dùng chung synced = 0"
    );

    mb.dat_offline(false);
    let mut a = syncer(mb.clone(), "A", "B");
    assert_eq!(a.push_pending(&mut store).unwrap(), 1);
    assert_eq!(store.cho_gui().unwrap().len(), 0);
    assert_eq!(mb.keys_voi_prefix("inbox/B/").len(), 1);

    assert_eq!(a.push_pending(&mut store).unwrap(), 0);
    let _ = SYNC_DA_GUI;
}

/// Waits until the clock has moved past the current millisecond.
fn cho_dong_ho() {
    let t = x2clip_core::now_ms();
    while x2clip_core::now_ms() <= t + 1 {}
}
