//! The tray's three states.

use x2clip_core::tray::TrangThai;

/// Three states, three different labels, read correctly from the flag.
#[test]
fn ba_trang_thai_phan_biet_duoc() {
    assert!(matches!(TrangThai::doc(false, false), TrangThai::ChuaCauHinh));
    assert!(matches!(TrangThai::doc(true, false), TrangThai::DangChay));
    assert!(matches!(TrangThai::doc(true, true), TrangThai::TamDung));

    let n = [TrangThai::DangChay, TrangThai::TamDung, TrangThai::ChuaCauHinh].map(TrangThai::nhan);
    assert_eq!(n.iter().collect::<std::collections::HashSet<_>>().len(), 3);
}
