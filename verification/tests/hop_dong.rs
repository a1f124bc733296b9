//! Concrete checks of the library's contracts: the laws on given values,
//! each error variant, exact outputs of the formatting and hashing
//! functions.

use x2clip_core::clip::{hash_text, Clipboard, ClipboardError};
use x2clip_core::config::{
    default_poll_secs, default_region, hostname, mau_mac_dinh, mode_too_open, Config, ConfigError, CryptoConfig,
    MailboxConfig, PassphraseSource,
};
use x2clip_core::crypto::{derive_key, random_salt, CryptoError};
use x2clip_core::mailbox::{keys_from_list_response, phan_loai, MailboxError};
use x2clip_core::store::{Row, SeenKey, Store, StoreError, SYNC_CHO_GUI, SYNC_DA_GUI, SYNC_KHONG_GUI};
use x2clip_core::mailbox::{Mailbox, MailboxResult};
use x2clip_core::sync::{Payload, PayloadError, SyncError, Syncer};
use x2clip_core::watcher::Watcher;
use x2clip_core::text::{bytes_contain, preview, to_lowercase};
use x2clip_core::tray::{dong_item, HanhDong, SuKien, TrangThai};
use x2clip_core::wire::{append_decimal, read_payload, write_payload};
use x2clip_core::{MAX_AGE_MS, MAX_ITEMS, MAX_TEXT_BYTES};

const T0: i64 = 1_700_000_000_000;

fn row(id: i64, hash: &str, updated_at: i64) -> Row {
    Row {
        id,
        kind: "text".to_string(),
        hash: hash.to_string(),
        body: hash.to_string(),
        blob: None,
        thumb: None,
        created_at: updated_at,
        updated_at,
        pinned: false,
        synced: SYNC_CHO_GUI,
    }
}

fn cau_hinh(machine: &str, peer: &str, co_mailbox: bool) -> Config {
    Config {
        machine: machine.to_string(),
        peer: peer.to_string(),
        poll_secs: 30,
        mailbox: if co_mailbox {
            Some(MailboxConfig {
                endpoint: "https://x.r2.cloudflarestorage.com".to_string(),
                bucket: "x2clip".to_string(),
                region: "auto".to_string(),
                access_key_id: "id".to_string(),
                secret_access_key: "bi-mat".to_string(),
            })
        } else {
            None
        },
        crypto: None,
    }
}

// ── hashing and text ───────────────────────────────────────────────────────

#[test]
fn hash_text_la_sha256_hex() {
    assert_eq!(hash_text(""), "e3b0c44298fc1c149afbf4c8996fb92427ae41e4649b934ca495991b7852b855");
    assert_eq!(hash_text("abc"), "ba7816bf8f01cfea414140de5dae2223b00361a396177a9cb410ff61f20015ad");
    assert_ne!(hash_text("abc"), "abc");
}

#[test]
fn chu_thuong_va_tim_byte() {
    assert_eq!(to_lowercase("XIN CHÀO Ăn"), "xin chào ăn");
    assert!(bytes_contain(b"xin chao", b"n ch"));
    assert!(bytes_contain(b"abc", b""));
    assert!(!bytes_contain(b"abc", b"abcd"));
    assert!(!bytes_contain(b"abc", b"ac"));
}

#[test]
fn preview_cat_va_doi_xuong_dong() {
    assert_eq!(preview("abc", 3), "abc");
    assert_eq!(preview("abcd", 3), "abc…");
    assert_eq!(preview("a\nb", 10), "a⏎b");
    assert_eq!(preview("", 5), "");
    assert_eq!(preview("ăâê", 2), "ăâ…");
}

// ── store ──────────────────────────────────────────────────────────────────

#[test]
fn upsert_trung_hash_chi_doi_thoi_diem() {
    let mut s = Store::open_memory().unwrap();
    let (id1, moi1) = s.upsert_text_at("h1", "một", T0).unwrap();
    assert!(moi1);
    let (id2, moi2) = s.upsert_text_at("h1", "một", T0 + 5).unwrap();
    assert!(!moi2);
    assert_eq!(id1, id2);
    let items = s.list(10).unwrap();
    assert_eq!(items.len(), 1);
    assert_eq!(items[0].updated_at, T0 + 5);
    assert_eq!(items[0].created_at, T0);
}

#[test]
fn het_id_thi_bao_ids_exhausted() {
    let mut s = Store::from_parts(vec![row(i64::MAX, "h", T0)], vec![]).unwrap();
    assert!(matches!(s.upsert_text_at("khac", "khác", T0), Err(StoreError::IdsExhausted)));
    assert_eq!(s.count().unwrap(), 1);
}

#[test]
fn from_parts_tu_choi_bang_hong() {
    // Ids not increasing.
    assert!(matches!(
        Store::from_parts(vec![row(2, "a", T0), row(1, "b", T0)], vec![]),
        Err(StoreError::Corrupt)
    ));
    // One content hash twice.
    assert!(matches!(
        Store::from_parts(vec![row(1, "a", T0), row(2, "a", T0)], vec![]),
        Err(StoreError::Corrupt)
    ));
    // One seen key twice.
    let k = SeenKey { key: "inbox/A/1".to_string(), at: T0 };
    assert!(matches!(Store::from_parts(vec![], vec![k.clone(), k]), Err(StoreError::Corrupt)));
    // A sound table is taken as it is.
    let s = Store::from_parts(vec![row(1, "a", T0), row(5, "b", T0)], vec![]).unwrap();
    assert_eq!(s.count().unwrap(), 2);
}

/// At most `MAX_ITEMS` unpinned items survive a prune, the newest ones.
#[test]
fn prune_giu_dung_1000_item_moi_nhat() {
    let mut s = Store::open_memory().unwrap();
    for i in 0..(MAX_ITEMS as i64 + 5) {
        let h = format!("h{i}");
        s.upsert_text_at(&h, &h, T0 + i).unwrap();
    }
    let bo = s.prune_at(T0 + MAX_ITEMS as i64 + 5).unwrap();
    assert_eq!(bo, 5);
    assert_eq!(s.count().unwrap(), MAX_ITEMS as i64);
    let con = s.list(MAX_ITEMS + 10).unwrap();
    assert_eq!(con.last().unwrap().body, "h5");
    assert!(con.iter().all(|it| it.body != "h4"));
}

/// Unpinned items unused for longer than `MAX_AGE_MS` go; pinned ones stay.
#[test]
fn prune_bo_item_qua_30_ngay_tru_item_ghim() {
    let mut s = Store::open_memory().unwrap();
    let (cu, _) = s.upsert_text_at("cu", "cũ", T0).unwrap();
    let (ghim, _) = s.upsert_text_at("ghim", "ghim", T0).unwrap();
    s.set_pinned(ghim, true).unwrap();
    s.upsert_text_at("moi", "mới", T0 + MAX_AGE_MS).unwrap();
    assert_eq!(s.prune_at(T0 + MAX_AGE_MS).unwrap(), 0, "đúng 30 ngày thì còn giữ");
    assert_eq!(s.prune_at(T0 + MAX_AGE_MS + 1).unwrap(), 1);
    let con: Vec<i64> = s.list(10).unwrap().iter().map(|i| i.id).collect();
    assert!(!con.contains(&cu));
    assert!(con.contains(&ghim));
    assert_eq!(con.len(), 2);
}

#[test]
fn set_pinned_va_dat_synced_id_la_khong_doi_gi() {
    let mut s = Store::open_memory().unwrap();
    let (id, _) = s.upsert_text_at("a", "a", T0).unwrap();
    s.set_pinned(id + 100, true).unwrap();
    s.dat_synced(id + 100, SYNC_DA_GUI).unwrap();
    assert!(!s.list(1).unwrap()[0].pinned);
    assert_eq!(s.cho_gui().unwrap().len(), 1);
    s.dat_synced(id, SYNC_DA_GUI).unwrap();
    assert_eq!(s.cho_gui().unwrap().len(), 0);
}

#[test]
fn anh_qua_co_khong_vao_hang_cho_va_giu_blob() {
    let mut s = Store::open_memory().unwrap();
    let png = vec![1u8, 2, 3, 4];
    let (id, moi) = s.upsert_image("anh", "ảnh 2x2", &png, &[9u8], SYNC_KHONG_GUI, T0).unwrap();
    assert!(moi);
    assert_eq!(s.lay_blob(id).unwrap(), Some(png));
    assert_eq!(s.cho_gui().unwrap().len(), 0);
    assert_eq!(s.rows()[0].synced, SYNC_KHONG_GUI);
    assert_eq!(s.lay_blob(id + 1).unwrap(), None);
}

#[test]
fn da_thay_va_prune_seen() {
    let mut s = Store::open_memory().unwrap();
    assert!(!s.da_thay("inbox/A/1").unwrap());
    s.ghi_nhan_da_thay_at("inbox/A/1", T0).unwrap();
    s.ghi_nhan_da_thay_at("inbox/A/1", T0 + 9).unwrap();
    assert_eq!(s.seen().len(), 1, "ghi hai lần vẫn một dòng");
    assert_eq!(s.seen()[0].at, T0);
    assert!(s.da_thay("inbox/A/1").unwrap());
    assert_eq!(s.prune_seen_at(T0 + MAX_AGE_MS).unwrap(), 0);
    assert_eq!(s.prune_seen_at(T0 + MAX_AGE_MS + 1).unwrap(), 1);
    assert!(!s.da_thay("inbox/A/1").unwrap());
}

#[test]
fn search_tra_rong_khi_khong_khop() {
    let mut s = Store::open_memory().unwrap();
    s.upsert_text_at("a", "Phở Bò", T0).unwrap();
    assert_eq!(s.search("PHỞ").unwrap().len(), 1);
    assert_eq!(s.search("bún").unwrap().len(), 0);
}

// ── crypto ─────────────────────────────────────────────────────────────────

#[test]
fn salt_sai_do_dai_bi_tu_choi() {
    match derive_key("pass", &[1u8; 8]) {
        Err(CryptoError::SaltLength(8)) => {}
        _ => panic!("salt 8 byte phải ra SaltLength(8)"),
    }
    assert_eq!(CryptoError::SaltLength(8).to_string(), "salt phải đúng 16 byte, đang có 8");
}

#[test]
fn ma_hoa_giai_ma_va_cac_loi() {
    let k = derive_key("pass", &[3u8; 16]).unwrap();
    let khac = derive_key("khác", &[3u8; 16]).unwrap();
    let a = k.encrypt(b"noi dung").unwrap();
    let b = k.encrypt(b"noi dung").unwrap();
    assert_eq!(a.len(), 24 + 8 + 16);
    assert_ne!(a, b, "nonce ngẫu nhiên: hai lần mã hoá khác nhau");
    assert_eq!(k.decrypt(&a).unwrap(), b"noi dung");
    assert!(matches!(khac.decrypt(&a), Err(CryptoError::Decrypt)));
    assert!(matches!(k.decrypt(&a[..39]), Err(CryptoError::Truncated(39))));
    assert_eq!(CryptoError::Truncated(39).to_string(), "object cụt: 39 byte, tối thiểu 40");
    assert_eq!(
        CryptoError::Decrypt.to_string(),
        "giải mã thất bại — passphrase không khớp hoặc dữ liệu hỏng"
    );
}

#[test]
fn ma_hoa_voi_nonce_co_dinh_dat_nonce_o_dau() {
    let k = derive_key("pass", &[3u8; 16]).unwrap();
    let nonce = [5u8; 24];
    let a = k.encrypt_with_nonce(b"xyz", nonce).unwrap();
    assert_eq!(&a[..24], &nonce);
    assert_eq!(a, k.encrypt_with_nonce(b"xyz", nonce).unwrap());
    assert_eq!(k.decrypt(&a).unwrap(), b"xyz");
}

#[test]
fn cung_passphrase_cung_salt_cung_khoa() {
    let salt = random_salt();
    let a = derive_key("p", &salt).unwrap();
    let b = derive_key("p", &salt).unwrap();
    let blob = a.encrypt(b"chung").unwrap();
    assert_eq!(b.decrypt(&blob).unwrap(), b"chung");
    let khac = derive_key("p", &[0u8; 16]).unwrap();
    assert!(khac.decrypt(&blob).is_err() || salt == [0u8; 16]);
}

// ── payload and its JSON ───────────────────────────────────────────────────

#[test]
fn payload_json_dung_tung_byte() {
    let p = Payload::text("a", 1);
    assert_eq!(
        String::from_utf8(p.to_json()).unwrap(),
        r#"{"v":1,"kind":"text","hash":"ca978112ca1bbdcafac231b39a23dc4da786eff8147c4e72b9807785afee48bb","body":"a","ts":1}"#
    );
    let q = Payload::text("x\"y\\z\n\t\u{1}", -5);
    let j = String::from_utf8(q.to_json()).unwrap();
    assert!(j.contains(r#""body":"x\"y\\z\n\t\u0001""#), "{j}");
    assert!(j.ends_with(r#","ts":-5}"#), "{j}");
}

#[test]
fn payload_json_doc_lai_duoc() {
    let p = Payload::text("tiếng Việt 🍜", -9_000_000_000);
    let q = Payload::from_json(&p.to_json()).unwrap();
    assert_eq!((q.v, q.kind.as_str(), q.hash.as_str(), q.body.as_str(), q.ts), (p.v, "text", p.hash.as_str(), p.body.as_str(), p.ts));
    assert!(Payload::from_json(b"day khong phai json").is_none());
    assert!(Payload::from_json(br#"{"v":1,"kind":"text","ts":1}"#).is_none());
    assert!(Payload::from_json(b"").is_none());
}

#[test]
fn kiem_tra_payload_tung_loi() {
    let mut p = Payload::text("a", 1);
    assert!(p.kiem_tra().is_ok());
    p.hash = "deadbeef".to_string();
    assert!(matches!(p.kiem_tra(), Err(PayloadError::Hash)));
    p.kind = "video/mp4".to_string();
    assert!(matches!(p.kiem_tra(), Err(PayloadError::Kind(ref k)) if k == "video/mp4"));
    p.v = 99;
    assert!(matches!(p.kiem_tra(), Err(PayloadError::Version(99))));
}

#[test]
fn wire_ghi_roi_doc() {
    let b = write_payload(7, b"k", b"h", b"b\"", i64::MIN);
    let (v, k, h, body, ts) = read_payload(&b).unwrap();
    assert_eq!((v, k, h, body, ts), (7, b"k".to_vec(), b"h".to_vec(), b"b\"".to_vec(), i64::MIN));
    assert!(read_payload(b"{\"v\":1}").is_none());
    let mut s = String::from("n=");
    append_decimal(&mut s, 1234567890);
    assert_eq!(s, "n=1234567890");
    let mut z = String::new();
    append_decimal(&mut z, 0);
    assert_eq!(z, "0");
}

// ── mailbox ────────────────────────────────────────────────────────────────

#[test]
fn phan_loai_403_401_la_auth() {
    for st in [401u16, 403] {
        match phan_loai(Some(st), "bỏ qua") {
            MailboxError::Auth(m) => assert_eq!(m, "HTTP 401/403 từ R2"),
            khac => panic!("{st} phải ra Auth, đang là: {khac:?}"),
        }
    }
}

#[test]
fn phan_loai_500_la_other() {
    match phan_loai(Some(500), "x") {
        MailboxError::Other(m) => assert_eq!(m, "HTTP 500"),
        khac => panic!("500 phải ra Other, đang là: {khac:?}"),
    }
}

#[test]
fn phan_loai_khong_co_phan_hoi_la_network() {
    match phan_loai(None, "connection refused") {
        MailboxError::Network(m) => assert_eq!(m, "connection refused"),
        khac => panic!("mất kết nối phải ra Network, đang là: {khac:?}"),
    }
    assert_eq!(
        MailboxError::Network("x".to_string()).to_string(),
        "không kết nối được hộp thư: x"
    );
    assert_eq!(
        MailboxError::Auth("y".to_string()).to_string(),
        "hộp thư từ chối truy cập (kiểm tra access key): y"
    );
    assert_eq!(MailboxError::Other("z".to_string()).to_string(), "lỗi hộp thư: z");
}

#[test]
fn doc_xml_list() {
    let xml = r#"<?xml version="1.0" encoding="UTF-8"?>
<ListBucketResult xmlns="http://s3.amazonaws.com/doc/2006-03-01/">
  <Name>x2clip</Name>
  <Prefix>inbox/A/</Prefix>
  <KeyCount>2</KeyCount>
  <MaxKeys>1000</MaxKeys>
  <IsTruncated>false</IsTruncated>
  <Contents>
    <Key>inbox/A/01</Key>
    <LastModified>2024-01-01T00:00:00.000Z</LastModified>
    <ETag>"e1"</ETag>
    <Size>10</Size>
    <StorageClass>STANDARD</StorageClass>
  </Contents>
  <Contents>
    <Key>inbox/A/02</Key>
    <LastModified>2024-01-01T00:00:00.000Z</LastModified>
    <ETag>"e2"</ETag>
    <Size>12</Size>
    <StorageClass>STANDARD</StorageClass>
  </Contents>
</ListBucketResult>"#;
    let keys = keys_from_list_response(xml).unwrap();
    assert_eq!(keys, vec!["inbox/A/01".to_string(), "inbox/A/02".to_string()]);
    assert!(matches!(keys_from_list_response("không phải xml"), Err(MailboxError::Other(_))));
}

// ── config ─────────────────────────────────────────────────────────────────

#[test]
fn gia_tri_mac_dinh() {
    assert_eq!(default_poll_secs(), 30);
    assert_eq!(default_region(), "auto");
    assert!(mode_too_open(0o644));
    assert!(mode_too_open(0o640));
    assert!(!mode_too_open(0o600));
    assert!(!mode_too_open(0o400));
    assert_eq!(hostname(Some("laptop".to_string())), "laptop");
    assert_eq!(hostname(Some(String::new())), "may-nay");
    assert_eq!(hostname(None), "may-nay");
    let m = mau_mac_dinh("a", "b", "00ff");
    assert!(m.contains("machine = \"a\"\npeer = \"b\"\npoll_secs = 30\n"));
    assert!(m.contains("salt = \"00ff\"\n"));
    assert!(m.contains("# [mailbox]"));
}

#[test]
fn ten_may_tung_loi() {
    assert!(cau_hinh("a", "a", false).kiem_tra_ten_may().is_ok());
    match cau_hinh("a", "a", true).kiem_tra_ten_may() {
        Err(ConfigError::SelfLoop(n)) => assert_eq!(n, "a"),
        _ => panic!("machine == peer phải ra SelfLoop"),
    }
    match cau_hinh("may-nay", "b", true).kiem_tra_ten_may() {
        Err(ConfigError::Placeholder(f, v)) => assert_eq!((f.as_str(), v.as_str()), ("machine", "may-nay")),
        _ => panic!("tên mẫu phải bị từ chối"),
    }
    match cau_hinh("a", "peer", true).kiem_tra_ten_may() {
        Err(ConfigError::Placeholder(f, v)) => assert_eq!((f.as_str(), v.as_str()), ("peer", "peer")),
        _ => panic!("tên mẫu phải bị từ chối"),
    }
    assert!(cau_hinh("a", "b", true).kiem_tra_ten_may().is_ok());
    assert_eq!(
        ConfigError::SelfLoop("a".to_string()).to_string(),
        "machine và peer đều là \"a\" — máy sẽ tự gửi cho chính nó, vòng lặp vô hạn"
    );
}

#[test]
fn salt_va_passphrase() {
    let mut c = cau_hinh("a", "b", true);
    assert!(matches!(c.salt(), Err(ConfigError::MissingCrypto)));
    assert!(matches!(c.passphrase(None), Err(ConfigError::MissingPassphrase)));
    c.crypto = Some(CryptoConfig { salt: "00ff10Ab".to_string(), passphrase_file: None });
    assert_eq!(c.salt().unwrap(), vec![0x00, 0xff, 0x10, 0xab]);
    assert!(matches!(c.passphrase(None), Err(ConfigError::MissingPassphrase)));
    match c.passphrase(Some("tu-env".to_string())) {
        Ok(PassphraseSource::Env(p)) => assert_eq!(p, "tu-env"),
        _ => panic!("biến môi trường được ưu tiên"),
    }
    c.crypto = Some(CryptoConfig { salt: "0g".to_string(), passphrase_file: Some("/tmp/p".to_string()) });
    assert!(matches!(c.salt(), Err(ConfigError::InvalidSalt(_))));
    match c.passphrase(None) {
        Ok(PassphraseSource::File(f)) => assert_eq!(f, "/tmp/p"),
        _ => panic!("phải đọc từ file"),
    }
    c.crypto = Some(CryptoConfig { salt: "abc".to_string(), passphrase_file: None });
    assert!(matches!(c.salt(), Err(ConfigError::InvalidSalt(_))), "số chữ số lẻ");
    assert_eq!(c.inbox_cua_minh(), "inbox/a/");
    assert_eq!(c.inbox_cua_peer(), "inbox/b/");
}

// ── tray ───────────────────────────────────────────────────────────────────

#[test]
fn trang_thai_tray_doc_dung_va_mau() {
    assert_eq!(TrangThai::doc(false, true), TrangThai::ChuaCauHinh);
    assert_eq!(TrangThai::doc(true, true), TrangThai::TamDung);
    assert_eq!(TrangThai::doc(true, false), TrangThai::DangChay);
    assert_eq!(TrangThai::DangChay.mau(), [46, 160, 67]);
    assert_eq!(TrangThai::TamDung.mau(), [219, 171, 10]);
    assert_eq!(TrangThai::ChuaCauHinh.mau(), [128, 128, 128]);
    assert_eq!(TrangThai::TamDung.nhan(), "x2clip — tạm dừng đồng bộ");
}

#[test]
fn cua_so_tray_phan_ung_dung() {
    let s = TrangThai::DangChay;
    assert_eq!(s.xu_ly(false, SuKien::PhimTatNhan), HanhDong::Mo);
    assert_eq!(s.xu_ly(true, SuKien::PhimTatNhan), HanhDong::An);
    assert_eq!(s.xu_ly(true, SuKien::PhimTatNha), HanhDong::BoQua, "nhả phím không được chạy lần hai");
    assert_eq!(s.xu_ly(false, SuKien::MenuMo), HanhDong::Mo);
    assert_eq!(s.xu_ly(true, SuKien::PhimEsc), HanhDong::An);
    assert_eq!(s.xu_ly(true, SuKien::MenuThoat), HanhDong::Dong);
    assert_eq!(s.xu_ly(true, SuKien::MenuTamDung), HanhDong::DatTamDung(true));
    assert_eq!(TrangThai::TamDung.xu_ly(true, SuKien::MenuTamDung), HanhDong::DatTamDung(false));
}

#[test]
fn dong_item_tray() {
    assert_eq!(dong_item("a\nb", true), "📌 a⏎b");
    assert_eq!(dong_item("x", false), "　 x");
    let dai = "y".repeat(100);
    assert_eq!(dong_item(&dai, false), format!("　 {}…", "y".repeat(90)));
}

// ── watcher and sync steps ─────────────────────────────────────────────────

#[derive(Default)]
struct KhayGia {
    text: Option<String>,
}

impl Clipboard for KhayGia {
    fn get_text(&mut self) -> Option<String> {
        self.text.clone()
    }
    fn set_text(&mut self, text: &str) -> Result<(), ClipboardError> {
        self.text = Some(text.to_string());
        Ok(())
    }
}

/// A mailbox that is never reachable.
struct MatMang;

impl Mailbox for MatMang {
    fn put(&self, _key: &str, _body: &[u8]) -> MailboxResult<()> {
        Err(MailboxError::Network("offline".to_string()))
    }
    fn list(&self, _prefix: &str) -> MailboxResult<Vec<String>> {
        Err(MailboxError::Network("offline".to_string()))
    }
    fn get(&self, _key: &str) -> MailboxResult<Vec<u8>> {
        Err(MailboxError::Network("offline".to_string()))
    }
    fn delete(&self, _key: &str) -> MailboxResult<()> {
        Err(MailboxError::Network("offline".to_string()))
    }
}

#[test]
fn observe_bo_qua_rong_qua_co_va_trung() {
    let mut w = Watcher::new(KhayGia::default(), Store::open_memory().unwrap());
    assert_eq!(w.observe(None, T0).unwrap(), None);
    assert_eq!(w.observe(Some(String::new()), T0).unwrap(), None, "text rỗng không được ghi");
    let qua_co = "x".repeat(MAX_TEXT_BYTES + 1);
    assert_eq!(w.observe(Some(qua_co), T0).unwrap(), None, "quá 1 MB thì bỏ qua, không cắt");
    assert_eq!(w.store().count().unwrap(), 0);
    let vua = "x".repeat(MAX_TEXT_BYTES);
    assert!(w.observe(Some(vua), T0).unwrap().is_some(), "đúng 1 MB vẫn ghi");
    let id = w.observe(Some("a".to_string()), T0 + 1).unwrap().unwrap();
    assert_eq!(w.observe(Some("a".to_string()), T0 + 2).unwrap(), None);
    assert_eq!(w.store().count().unwrap(), 2);
    assert_eq!(w.store().list(1).unwrap()[0].id, id);
}

#[test]
fn echo_chi_chan_dung_mot_lan() {
    let mut w = Watcher::new(KhayGia::default(), Store::open_memory().unwrap());
    w.apply_remote("từ xa").unwrap();
    assert_eq!(w.echo_cell(), Some(hash_text("từ xa")));
    assert_eq!(w.observe(Some("từ xa".to_string()), T0).unwrap(), None);
    assert_eq!(w.echo_cell(), None, "lần poll thấy nó thì gỡ cờ");
    assert_eq!(w.store().count().unwrap(), 0);
    // The user copies something else, then the same text again: now it counts.
    w.observe(Some("khác".to_string()), T0 + 1).unwrap();
    assert!(w.observe(Some("từ xa".to_string()), T0 + 2).unwrap().is_some());
}

#[test]
fn take_in_sai_khoa_khong_doi_gi_dung_khoa_thi_ghi() {
    let khoa = derive_key("pass", &[1u8; 16]).unwrap();
    let sai = derive_key("khac", &[1u8; 16]).unwrap();
    let blob = khoa.encrypt(&Payload::text("xin chào", 42).to_json()).unwrap();

    let mut s_sai = Syncer::new(MatMang, sai, "inbox/B/".to_string(), "inbox/A/".to_string());
    let mut store = Store::open_memory().unwrap();
    assert_eq!(s_sai.take_in(&mut store, "inbox/B/1", &blob, T0).unwrap(), None);
    assert_eq!(store.count().unwrap(), 0);
    assert!(!store.da_thay("inbox/B/1").unwrap(), "sai khoá không được đánh dấu đã thấy");

    let mut s = Syncer::new(MatMang, khoa, "inbox/B/".to_string(), "inbox/A/".to_string());
    assert_eq!(s.take_in(&mut store, "inbox/B/1", &blob, T0).unwrap(), Some((42, "xin chào".to_string())));
    assert!(store.da_thay("inbox/B/1").unwrap());
    assert_eq!(store.cho_gui().unwrap().len(), 0, "item nhận về không được gửi lại");
    assert_eq!(store.rows()[0].synced, SYNC_KHONG_GUI);
    assert_eq!(store.rows()[0].updated_at, 42);
}

#[test]
fn mat_mang_thi_bao_loi_va_giu_hang_cho() {
    let khoa = derive_key("pass", &[1u8; 16]).unwrap();
    let mut s = Syncer::new(MatMang, khoa, "inbox/B/".to_string(), "inbox/A/".to_string());
    let mut store = Store::open_memory().unwrap();
    store.upsert_text_at("h", "chờ", T0).unwrap();
    assert!(matches!(s.push_pending(&mut store), Err(SyncError::Mailbox(MailboxError::Network(_)))));
    assert_eq!(store.cho_gui().unwrap().len(), 1);
    assert!(matches!(s.ingest(&mut store), Err(SyncError::Mailbox(MailboxError::Network(_)))));
    assert_eq!(store.count().unwrap(), 1);
}

#[test]
fn ghi_nhan_theo_dong_ho_that() {
    let mut s = Store::open_memory().unwrap();
    s.ghi_nhan_da_thay("inbox/A/x").unwrap();
    assert!(s.da_thay("inbox/A/x").unwrap());
    assert_eq!(s.prune_seen().unwrap(), 0, "vừa ghi thì chưa quá 30 ngày");
    assert!(s.da_thay("inbox/A/x").unwrap());
    let (id, moi) = s.upsert_text("h", "bây giờ").unwrap();
    assert!(moi);
    assert_eq!(s.prune().unwrap(), 0);
    assert_eq!(s.list(1).unwrap()[0].id, id);
}

#[test]
fn pin_va_rm_bao_false_khi_id_khong_ton_tai() {
    let mut s = Store::open_memory().unwrap();
    let id = s.upsert_text(&hash_text("có thật"), "có thật").unwrap().0;

    assert!(s.set_pinned(id, true).unwrap());
    assert!(s.list(1).unwrap()[0].pinned);
    assert!(s.set_pinned(id, false).unwrap());
    assert!(!s.list(1).unwrap()[0].pinned);

    assert!(!s.set_pinned(9999, true).unwrap(), "id ma mà báo thành công");
}

#[test]
fn nhip_hop_thu() {
    // 30 s at 250 ms a beat: every 120th beat, starting with the first.
    assert!(x2clip_core::mailbox_due(0, 30));
    assert!(!x2clip_core::mailbox_due(1, 30));
    assert!(!x2clip_core::mailbox_due(119, 30));
    assert!(x2clip_core::mailbox_due(120, 30));
    assert!(x2clip_core::mailbox_due(240, 30));
    // Shorter than one beat still means every beat.
    assert!(x2clip_core::mailbox_due(7, 0));
    assert!(x2clip_core::mailbox_due(3, 1) == (3 % 4 == 0));
}

#[derive(Default)]
struct KhayNhayCam {
    text: Option<String>,
    nhay_cam: bool,
}

impl Clipboard for KhayNhayCam {
    fn get_text(&mut self) -> Option<String> {
        self.text.clone()
    }
    fn set_text(&mut self, text: &str) -> Result<(), ClipboardError> {
        self.text = Some(text.to_string());
        Ok(())
    }
    fn nhay_cam(&mut self) -> bool {
        self.nhay_cam
    }
}

#[test]
fn n22_noi_dung_nhay_cam_khong_vao_lich_su() {
    let mut w = Watcher::new(KhayNhayCam::default(), Store::open_memory().unwrap());
    w.clip_mut().set_text("mat-khau-sieu-bi-mat").unwrap();
    w.clip_mut().nhay_cam = true;

    assert_eq!(w.tick().unwrap(), None);
    assert_eq!(w.store().count().unwrap(), 0, "password không được vào DB");

    w.clip_mut().nhay_cam = false;
    assert!(w.tick().unwrap().is_some());
    assert_eq!(w.store().count().unwrap(), 1);
}

#[test]
fn icon_tray_la_cham_tron_16x16() {
    let px = TrangThai::DangChay.icon_rgba();
    assert_eq!(px.len(), 16 * 16 * 4);
    let at = |x: usize, y: usize| &px[4 * (16 * y + x)..4 * (16 * y + x) + 4];
    assert_eq!(at(8, 8), &[46, 160, 67, 255]);
    assert_eq!(at(1, 8), &[46, 160, 67, 255], "bán kính 7 còn trong chấm");
    assert_eq!(at(0, 8), &[46, 160, 67, 0]);
    assert_eq!(at(0, 0), &[46, 160, 67, 0]);
    assert_eq!(at(15, 15), &[46, 160, 67, 0]);
    assert_eq!(TrangThai::TamDung.icon_rgba()[..4], [219, 171, 10, 0]);
    let dac = px.chunks(4).filter(|p| p[3] == 255).count();
    assert_eq!(dac, 149);
}

#[test]
fn list_tra_dung_min_gioi_han_so_dong() {
    let mut s = Store::open_memory().unwrap();
    for i in 0..5i64 {
        let h = format!("h{i}");
        s.upsert_text_at(&h, &h, T0 + i).unwrap();
    }
    assert_eq!(s.list(3).unwrap().len(), 3);
    assert_eq!(s.list(5).unwrap().len(), 5);
    assert_eq!(s.list(50).unwrap().len(), 5);
    assert_eq!(s.list(0).unwrap().len(), 0);
}
