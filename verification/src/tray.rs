//! The three sync states a tray icon shows: each must be told apart at a
//! glance, without opening the menu.

use vstd::prelude::*;
use crate::text::{preview, preview_text};

verus! {

#[derive(PartialEq, Eq, Structural, Clone, Copy, Debug)]
pub enum TrangThai {
    /// Syncing.
    DangChay,
    /// Sync paused by the user.
    TamDung,
    /// No mailbox configured: local history only.
    ChuaCauHinh,
}

/// The tooltip text of a state.
pub open spec fn label(s: TrangThai) -> Seq<char> {
    match s {
        TrangThai::DangChay => "x2clip — đang đồng bộ"@,
        TrangThai::TamDung => "x2clip — tạm dừng đồng bộ"@,
        TrangThai::ChuaCauHinh => "x2clip — chưa cấu hình hộp thư (local-only)"@,
    }
}

/// The colour of a state's dot, as red, green and blue.
pub open spec fn colour(s: TrangThai) -> Seq<u8> {
    match s {
        TrangThai::DangChay => seq![46u8, 160u8, 67u8],
        TrangThai::TamDung => seq![219u8, 171u8, 10u8],
        TrangThai::ChuaCauHinh => seq![128u8, 128u8, 128u8],
    }
}

/// Opacity of pixel (x, y): opaque inside the circle of radius 7 around
/// (8, 8), transparent outside.
pub open spec fn dot_alpha(x: int, y: int) -> u8 {
    if (x - 8) * (x - 8) + (y - 8) * (y - 8) <= 49 {
        255
    } else {
        0
    }
}

/// The first `n` RGBA pixels of row `y` of the icon in colour `c`.
pub open spec fn icon_row(c: Seq<u8>, y: int, n: nat) -> Seq<u8>
    decreases n,
{
    if n == 0 {
        Seq::empty()
    } else {
        icon_row(c, y, (n - 1) as nat) + seq![c[0], c[1], c[2], dot_alpha(n - 1, y)]
    }
}

/// The first `m` rows of the 16-pixel-wide icon in colour `c`.
pub open spec fn icon_rows(c: Seq<u8>, m: nat) -> Seq<u8>
    decreases m,
{
    if m == 0 {
        Seq::empty()
    } else {
        icon_rows(c, (m - 1) as nat) + icon_row(c, m - 1, 16)
    }
}

impl TrangThai {
    /// The state from whether a mailbox is configured and whether the pause
    /// flag file exists.
    pub fn doc(co_mailbox: bool, paused: bool) -> (r: Self)
        ensures
            r == (if !co_mailbox {
                TrangThai::ChuaCauHinh
            } else if paused {
                TrangThai::TamDung
            } else {
                TrangThai::DangChay
            }),
    {
        if !co_mailbox {
            TrangThai::ChuaCauHinh
        } else if paused {
            TrangThai::TamDung
        } else {
            TrangThai::DangChay
        }
    }

    /// The tooltip of each state.
    pub fn nhan(self) -> (r: &'static str)
        ensures
            r@ == label(self),
    {
        match self {
            TrangThai::DangChay => "x2clip — đang đồng bộ",
            TrangThai::TamDung => "x2clip — tạm dừng đồng bộ",
            TrangThai::ChuaCauHinh => "x2clip — chưa cấu hình hộp thư (local-only)",
        }
    }

    /// The colour of the state's dot: green, yellow, grey.
    pub fn mau(self) -> (r: [u8; 3])
        ensures
            r@ == colour(self),
    {
        let r: [u8; 3] = match self {
            TrangThai::DangChay => [46u8, 160u8, 67u8],
            TrangThai::TamDung => [219u8, 171u8, 10u8],
            TrangThai::ChuaCauHinh => [128u8, 128u8, 128u8],
        };
        assert(r@ =~= colour(self));
        r
    }

    /// The tray icon: a 16x16 RGBA image, rows from the top, of a round dot
    /// of radius 7 around (8, 8) in the state's colour on a transparent
    /// ground. Drawn by hand so that no image file has to ship.
    pub fn icon_rgba(self) -> (r: Vec<u8>)
        ensures
            r@ == icon_rows(colour(self), 16),
            r@.len() == 1024,
    {
        let m = self.mau();
        let ghost c = colour(self);
        let mut out: Vec<u8> = Vec::new();
        let mut y: i32 = 0;
        assert(out@ =~= icon_rows(c, 0));
        while y < 16
            invariant
                0 <= y <= 16,
                m@ == c,
                out@ == icon_rows(c, y as nat),
                out@.len() == 64 * y,
            decreases 16 - y,
        {
            let mut x: i32 = 0;
            assert(out@ =~= icon_rows(c, y as nat) + icon_row(c, y as int, 0));
            while x < 16
                invariant
                    0 <= x <= 16,
                    0 <= y < 16,
                    m@ == c,
                    out@ == icon_rows(c, y as nat) + icon_row(c, y as int, x as nat),
                    out@.len() == 64 * y + 4 * x,
                decreases 16 - x,
            {
                let dx = x - 8;
                let dy = y - 8;
                assert(0 <= dx * dx <= 64 && 0 <= dy * dy <= 64) by (nonlinear_arith)
                    requires
                        -8 <= dx <= 8,
                        -8 <= dy <= 8,
                ;
                let trong = dx * dx + dy * dy <= 49;
                let alpha: u8 = if trong {
                    255
                } else {
                    0
                };
                let ghost before = out@;
                out.push(m[0]);
                out.push(m[1]);
                out.push(m[2]);
                out.push(alpha);
                assert(alpha == dot_alpha(x as int, y as int));
                x += 1;
                assert(out@ =~= before + seq![c[0], c[1], c[2], dot_alpha((x - 1) as int, y as int)]);
                assert(out@ =~= icon_rows(c, y as nat) + icon_row(c, y as int, x as nat));
            }
            y += 1;
            assert(out@ =~= icon_rows(c, y as nat));
        }
        out
    }
}

/// Two different states never show the same tooltip.
pub proof fn lemma_labels_distinct(a: TrangThai, b: TrangThai)
    requires
        a != b,
    ensures
        label(a) != label(b),
{
    reveal_strlit("x2clip — đang đồng bộ");
    reveal_strlit("x2clip — tạm dừng đồng bộ");
    reveal_strlit("x2clip — chưa cấu hình hộp thư (local-only)");
    assert(label(a)[10] != label(b)[10]);
}

/// What reaches the tray window: the global hot key, a menu entry, or Esc.
#[derive(PartialEq, Eq, Structural, Clone, Copy, Debug)]
pub enum SuKien {
    /// The hot key went down.
    PhimTatNhan,
    /// The hot key came up.
    PhimTatNha,
    /// Menu entry "open".
    MenuMo,
    /// Menu entry "pause sync".
    MenuTamDung,
    /// Menu entry "quit".
    MenuThoat,
    /// Esc in the window.
    PhimEsc,
}

/// What the window does in answer.
#[derive(PartialEq, Eq, Structural, Clone, Copy, Debug)]
pub enum HanhDong {
    /// Show the window with the full history and focus the search box.
    Mo,
    /// Hide the window (it is never closed: the event loop must live on).
    An,
    /// Create (`true`) or remove (`false`) the pause flag file.
    DatTamDung(bool),
    /// End the program.
    Dong,
    /// Nothing.
    BoQua,
}

/// The answer to `ev` while the window is shown (`hien`) and the sync is
/// in state `s`.
pub open spec fn reaction(s: TrangThai, hien: bool, ev: SuKien) -> HanhDong {
    match ev {
        SuKien::PhimTatNhan => if hien {
            HanhDong::An
        } else {
            HanhDong::Mo
        },
        SuKien::PhimTatNha => HanhDong::BoQua,
        SuKien::MenuMo => HanhDong::Mo,
        SuKien::MenuTamDung => HanhDong::DatTamDung(s != TrangThai::TamDung),
        SuKien::MenuThoat => HanhDong::Dong,
        SuKien::PhimEsc => HanhDong::An,
    }
}

impl TrangThai {
    /// How the tray window answers an event. Only a key press toggles the
    /// window: reacting to the release too would open and close it at once.
    /// The pause entry flips the current state.
    pub fn xu_ly(self, hien: bool, ev: SuKien) -> (r: HanhDong)
        ensures
            r == reaction(self, hien, ev),
    {
        match ev {
            SuKien::PhimTatNhan => if hien {
                HanhDong::An
            } else {
                HanhDong::Mo
            },
            SuKien::PhimTatNha => HanhDong::BoQua,
            SuKien::MenuMo => HanhDong::Mo,
            SuKien::MenuTamDung => HanhDong::DatTamDung(self != TrangThai::TamDung),
            SuKien::MenuThoat => HanhDong::Dong,
            SuKien::PhimEsc => HanhDong::An,
        }
    }
}

/// The text of one history line in the tray window.
pub open spec fn item_line(body: Seq<char>, pinned: bool) -> Seq<char> {
    (if pinned {
        "📌 "@
    } else {
        "　 "@
    }) + preview_text(body, 90)
}

/// One history line of the tray window: a pin mark for pinned items, then
/// the first 90 characters of the body on one line.
pub fn dong_item(body: &str, pinned: bool) -> (r: String)
    ensures
        r@ == item_line(body@, pinned),
{
    let d = preview(body, 90);
    let head = if pinned {
        "📌 ".to_owned()
    } else {
        "　 ".to_owned()
    };
    head.concat(d.as_str())
}

} // verus!
