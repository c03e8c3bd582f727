//! How the file list renders.

use vstd::prelude::*;

verus! {

/// `Details` is the columnar list; the other modes are icon grids at increasing
/// thumbnail sizes.
#[derive(Debug, Clone, Copy, PartialEq, Eq, Structural)]
pub enum ViewMode {
    Details,
    Tiny,
    Small,
    Medium,
    Large,
    ExtraLarge,
}

impl Default for ViewMode {
    fn default() -> (r: ViewMode)
        ensures
            r == ViewMode::Details,
    {
        ViewMode::Details
    }
}

/// Padding inside each grid tile.
pub const TILE_PAD: u16 = 8;

/// Vertical gap between a tile's thumbnail and its label.
pub const TILE_GAP: u16 = 4;

/// Height reserved for a tile's label.
pub const LABEL_LINE_H: u16 = 16;

/// Minimum width of a tile's content.
pub const MIN_TILE_INNER_W: u16 = 76;

impl ViewMode {
    /// Thumbnail edge length in pixels.
    pub open spec fn thumb(self) -> Option<u16> {
        match self {
            ViewMode::Details => None,
            ViewMode::Tiny => Some(16),
            ViewMode::Small => Some(32),
            ViewMode::Medium => Some(48),
            ViewMode::Large => Some(96),
            ViewMode::ExtraLarge => Some(256),
        }
    }

    /// One tile's width and height in pixels: the thumbnail above a label of one line, with
    /// padding all round. For `Details`, that of the smallest tile.
    pub open spec fn tile(self) -> (int, int) {
        let px: int = match self.thumb() {
            Some(p) => p as int,
            None => 16,
        };
        let inner: int = if px < MIN_TILE_INNER_W {
            MIN_TILE_INNER_W as int
        } else {
            px
        };
        (inner + 2 * TILE_PAD, px + TILE_GAP + LABEL_LINE_H + 2 * TILE_PAD)
    }

    /// Every selectable mode, in the order the picker lists them.
    pub fn all() -> (r: Vec<ViewMode>)
        ensures
            r@ == seq![
                ViewMode::Details,
                ViewMode::Tiny,
                ViewMode::Small,
                ViewMode::Medium,
                ViewMode::Large,
                ViewMode::ExtraLarge,
            ],
    {
        let mut v: Vec<ViewMode> = Vec::new();
        v.push(ViewMode::Details);
        v.push(ViewMode::Tiny);
        v.push(ViewMode::Small);
        v.push(ViewMode::Medium);
        v.push(ViewMode::Large);
        v.push(ViewMode::ExtraLarge);
        assert(v@ =~= seq![
            ViewMode::Details,
            ViewMode::Tiny,
            ViewMode::Small,
            ViewMode::Medium,
            ViewMode::Large,
            ViewMode::ExtraLarge,
        ]);
        v
    }

    /// Thumbnail edge length in pixels for the grid modes; `None` for `Details`.
    pub fn thumb_px(self) -> (r: Option<u16>)
        ensures
            r == self.thumb(),
    {
        match self {
            ViewMode::Details => None,
            ViewMode::Tiny => Some(16),
            ViewMode::Small => Some(32),
            ViewMode::Medium => Some(48),
            ViewMode::Large => Some(96),
            ViewMode::ExtraLarge => Some(256),
        }
    }

    /// One grid tile's width and height in pixels: the thumbnail above a label of one
    /// line, with padding all round. For `Details`, that of the smallest tile.
    pub fn tile_size(self) -> (r: (u16, u16))
        ensures
            (r.0 as int, r.1 as int) == self.tile(),
    {
        let px: u16 = match self.thumb_px() {
            Some(p) => p,
            None => 16,
        };
        let inner: u16 = if px < MIN_TILE_INNER_W {
            MIN_TILE_INNER_W
        } else {
            px
        };
        (inner + TILE_PAD * 2, px + TILE_GAP + LABEL_LINE_H + TILE_PAD * 2)
    }

    /// What the picker calls the mode.
    pub fn label(&self) -> (r: String)
        ensures
            r@ == (match self {
                ViewMode::Details => "Details"@,
                ViewMode::Tiny => "Tiny icons"@,
                ViewMode::Small => "Small icons"@,
                ViewMode::Medium => "Medium icons"@,
                ViewMode::Large => "Large icons"@,
                ViewMode::ExtraLarge => "Extra large icons"@,
            }),
    {
        match self {
            ViewMode::Details => "Details".to_string(),
            ViewMode::Tiny => "Tiny icons".to_string(),
            ViewMode::Small => "Small icons".to_string(),
            ViewMode::Medium => "Medium icons".to_string(),
            ViewMode::Large => "Large icons".to_string(),
            ViewMode::ExtraLarge => "Extra large icons".to_string(),
        }
    }
}

/// The grid modes show thumbnails of growing size, the list none; a tile has room for its
/// thumbnail, a label below it, and padding all round.
pub proof fn law_tiles_hold_their_thumbnails(mode: ViewMode)
    ensures
        mode.thumb() is None <==> mode == ViewMode::Details,
        mode.thumb() matches Some(px) ==> mode.tile().0 >= px + 2 * TILE_PAD && mode.tile().1 == px
            + TILE_GAP + LABEL_LINE_H + 2 * TILE_PAD,
        ViewMode::Tiny.thumb()->0 < ViewMode::Small.thumb()->0,
        ViewMode::Small.thumb()->0 < ViewMode::Medium.thumb()->0,
        ViewMode::Medium.thumb()->0 < ViewMode::Large.thumb()->0,
        ViewMode::Large.thumb()->0 < ViewMode::ExtraLarge.thumb()->0,
{
}

} // verus!
