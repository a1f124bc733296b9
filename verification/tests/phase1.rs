//! Local history on one machine: echo guard, pruning, duplicates, search.

use x2clip_core::clip::{hash_text, Clipboard, ClipboardError};
use x2clip_core::store::Store;
use x2clip_core::watcher::Watcher;
use x2clip_core::MAX_ITEMS;

#[derive(Default)]
struct FakeClipboard {
    text: Option<String>,
    /// Number of writes, to see that `apply_remote` really wrote.
    writes: usize,
}

impl Clipboard for FakeClipboard {
    fn get_text(&mut self) -> Option<String> {
        self.text.clone()
    }
    fn set_text(&mut self, text: &str) -> Result<(), ClipboardError> {
        self.text = Some(text.to_string());
        self.writes += 1;
        Ok(())
    }
}

/// Content the app itself wrote to the clipboard must not come back as a
/// new item.
#[test]
fn t1_echo_guard_khong_sinh_item() {
    let mut w = Watcher::new(FakeClipboard::default(), Store::open_memory().unwrap());

    w.apply_remote("nhận từ hộp thư").unwrap();
    assert_eq!(w.tick().unwrap(), None, "item nhận về không được coi là copy mới");
    assert_eq!(w.store().count().unwrap(), 0);

    // Several receipts in a row must not let any through either.
    let mut w2 = Watcher::new(FakeClipboard::default(), Store::open_memory().unwrap());
    w2.apply_remote("a").unwrap();
    w2.tick().unwrap();
    w2.apply_remote("b").unwrap();
    w2.tick().unwrap();
    assert_eq!(w2.store().count().unwrap(), 0, "không có echo nào lọt qua");
}

/// `apply_remote` sets the guard before it writes the clipboard: when the
/// write has happened the guard holds the hash of what was written.
#[test]
fn t1c_apply_remote_set_co_truoc_khi_ghi() {
    let mut w = Watcher::new(FakeClipboard::default(), Store::open_memory().unwrap());
    w.apply_remote("nhận từ hộp thư").unwrap();
    assert_eq!(w.clip_mut().writes, 1);
    assert_eq!(
        w.echo_cell(),
        Some(hash_text("nhận từ hộp thư")),
        "cờ echo phải có sẵn tại thời điểm set_text — nếu không là race"
    );
}

#[test]
fn t1b_copy_that_su_thi_duoc_ghi() {
    let mut clip = FakeClipboard::default();
    clip.set_text("người dùng copy").unwrap();
    let mut w = Watcher::new(clip, Store::open_memory().unwrap());

    assert!(w.tick().unwrap().is_some());
    assert_eq!(w.store().count().unwrap(), 1);
    assert_eq!(w.tick().unwrap(), None, "clipboard không đổi thì không thêm gì");
}

/// Pruning leaves pinned items alone.
#[test]
fn t4_prune_khong_dung_pinned() {
    let mut store = Store::open_memory().unwrap();

    let (pinned_id, _) = store.upsert_text(&hash_text("ghim"), "ghim").unwrap();
    store.set_pinned(pinned_id, true).unwrap();
    let (oldest_id, _) = store.upsert_text(&hash_text("cũ nhất"), "cũ nhất").unwrap();

    for i in 0..MAX_ITEMS {
        let body = format!("item {i}");
        store.upsert_text(&hash_text(&body), &body).unwrap();
    }

    store.prune().unwrap();

    let ids: Vec<i64> = store.list(MAX_ITEMS + 10).unwrap().iter().map(|i| i.id).collect();
    assert!(ids.contains(&pinned_id), "item đã ghim phải sống sót");
    assert!(!ids.contains(&oldest_id), "item cũ nhất chưa ghim phải bị xoá");
    assert_eq!(ids.len(), MAX_ITEMS + 1, "1000 chưa ghim + 1 đã ghim");
}

/// A repeated copy: one row, `updated_at` moves, `created_at` stays.
#[test]
fn t5_copy_trung_khong_sinh_row_moi() {
    let mut store = Store::open_memory().unwrap();
    let h = hash_text("cùng nội dung");

    let (id1, is_new) = store.upsert_text(&h, "cùng nội dung").unwrap();
    assert!(is_new);
    let before = store.list(1).unwrap()[0].duplicate();

    cho_dong_ho();

    let (id2, is_new) = store.upsert_text(&h, "cùng nội dung").unwrap();
    assert_eq!(id1, id2);
    assert!(!is_new);

    let after = store.list(1).unwrap()[0].duplicate();
    assert_eq!(store.count().unwrap(), 1, "chỉ một entry");
    assert_eq!(after.created_at, before.created_at);
    assert!(after.updated_at > before.updated_at);
}

#[test]
fn search_khong_phan_biet_hoa_thuong_va_moi_nhat_len_dau() {
    let mut store = Store::open_memory().unwrap();
    for body in ["Xin chào", "không liên quan", "xin CHÀO lần hai"] {
        store.upsert_text(&hash_text(body), body).unwrap();
        cho_dong_ho();
    }

    let hits = store.search("XIN chào").unwrap();
    assert_eq!(hits.len(), 2);
    assert_eq!(hits[0].body, "xin CHÀO lần hai", "mới nhất lên đầu");
    assert!(store.search("zzz").unwrap().is_empty());
}

/// Waits until the clock has moved past the current millisecond.
fn cho_dong_ho() {
    let t = x2clip_core::now_ms();
    while x2clip_core::now_ms() <= t + 1 {}
}
