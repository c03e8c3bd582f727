//! Where rows and tiles stand: which of them a viewport shows, and how far to scroll.
//!
//! Lengths and offsets are whole numbers of 256ths of a pixel.

use crate::view_mode::ViewMode;
use vstd::prelude::*;

verus! {

/// How many units make a pixel.
pub const UNIT: u64 = 256;

/// Height of a row of the details list: 24 pixels.
pub const ROW_HEIGHT: u64 = 6144;

/// Rows built above and below the viewport.
pub const OVERSCAN: usize = 6;

/// Height of what surrounds the list: 150 pixels.
pub const CHROME_HEIGHT: u64 = 38400;

/// Inset of the icon grid from the edges of its pane: 8 pixels.
pub const GRID_PAD: u64 = 2048;

/// Tile rows built above and below the viewport.
pub const GRID_OVERSCAN_ROWS: usize = 2;

/// Width that the scrollbar takes from the grid: 14 pixels.
pub const SCROLLBAR_ALLOWANCE: u64 = 3584;

/// The smaller of two numbers.
pub open spec fn least(a: int, b: int) -> int {
    if a <= b {
        a
    } else {
        b
    }
}

/// The larger of two numbers.
pub open spec fn most(a: int, b: int) -> int {
    if a >= b {
        a
    } else {
        b
    }
}

/// How many lengths `unit` it takes to cover `len`.
pub open spec fn covering(len: int, unit: int) -> int {
    (len + unit - 1) / unit
}

/// The range of rows to build.
pub open spec fn window(scroll: int, viewport: int, count: int, row_h: int, overscan: int) -> (
    int,
    int,
) {
    if count == 0 || row_h <= 0 {
        (0, 0)
    } else {
        let first = scroll / row_h;
        let onscreen = covering(viewport, row_h) + 1;
        let end = least(first + onscreen + overscan, count);
        let start = least(most(first - overscan, 0), end);
        (start, end)
    }
}

/// The rows to build of a list of `count` rows of height `row_h`, scrolled to `scroll`
/// in a viewport, with `overscan` rows on each side. The range is always within the list,
/// also where the offset is past its end.
pub fn window_for(
    scroll: u64,
    viewport: u64,
    count: usize,
    row_h: u64,
    overscan: usize,
) -> (r: (usize, usize))
    ensures
        (r.0 as int, r.1 as int) == window(
            scroll as int,
            viewport as int,
            count as int,
            row_h as int,
            overscan as int,
        ),
        r.0 <= r.1 <= count,
{
    if count == 0 || row_h == 0 {
        return (0, 0);
    }
    let first: u128 = (scroll / row_h) as u128;
    let wide: u128 = viewport as u128 + row_h as u128 - 1;
    let onscreen: u128 = wide / (row_h as u128) + 1;
    proof {
        assert(wide / (row_h as u128) <= wide) by (nonlinear_arith)
            requires
                row_h >= 1,
        ;
    }
    let sum: u128 = first + onscreen + overscan as u128;
    let end: usize = if sum <= count as u128 {
        sum as usize
    } else {
        count
    };
    let over: u128 = overscan as u128;
    let low: u128 = if first > over {
        first - over
    } else {
        0
    };
    let start: usize = if low <= end as u128 {
        low as usize
    } else {
        end
    };
    (start, end)
}

/// The rows of the details list to build.
pub fn visible_window(scroll: u64, viewport: u64, total: usize) -> (r: (usize, usize))
    ensures
        (r.0 as int, r.1 as int) == window(
            scroll as int,
            viewport as int,
            total as int,
            ROW_HEIGHT as int,
            OVERSCAN as int,
        ),
        r.0 <= r.1 <= total,
{
    window_for(scroll, viewport, total, ROW_HEIGHT, OVERSCAN)
}

/// How many rows one page holds.
pub open spec fn page(viewport: int) -> int {
    most(viewport / ROW_HEIGHT as int, 1)
}

/// How many rows one page holds.
pub fn page_rows(viewport: u64) -> (r: u64)
    ensures
        r == page(viewport as int),
{
    let n: u64 = viewport / ROW_HEIGHT;
    if n >= 1 {
        n
    } else {
        1
    }
}

/// The viewport of a window of the given height, before the list has been measured.
pub open spec fn list_height(window_h: int) -> int {
    most(window_h - CHROME_HEIGHT, ROW_HEIGHT as int)
}

/// The viewport of a window of the given height.
pub fn viewport_for(window_h: u64) -> (r: u64)
    ensures
        r == list_height(window_h as int),
{
    if window_h >= CHROME_HEIGHT + ROW_HEIGHT {
        window_h - CHROME_HEIGHT
    } else {
        ROW_HEIGHT
    }
}

/// The offset to scroll to so that row `index` of `count` comes fully into view, if the
/// list has to move. A move of less than half a pixel is not made.
pub open spec fn scroll_for(index: int, count: int, scroll: int, viewport: int) -> Option<int> {
    let view_h = most(viewport, ROW_HEIGHT as int);
    let max_offset = most(count * ROW_HEIGHT - view_h, 0);
    let top = index * ROW_HEIGHT;
    let bottom = top + ROW_HEIGHT;
    if top >= scroll && bottom <= scroll + view_h {
        None
    } else {
        let want = if top < scroll {
            top
        } else {
            bottom - view_h
        };
        let target = least(least(most(want, 0), max_offset), u64::MAX as int);
        let far = if target >= scroll {
            target - scroll
        } else {
            scroll - target
        };
        if far < 128 {
            None
        } else {
            Some(target)
        }
    }
}

/// How far to scroll to bring row `index` of `count` into view.
pub fn scroll_target(index: usize, count: usize, scroll: u64, viewport: u64) -> (r: Option<u64>)
    ensures
        match r {
            Some(t) => scroll_for(index as int, count as int, scroll as int, viewport as int)
                == Some(t as int),
            None => scroll_for(index as int, count as int, scroll as int, viewport as int) is None,
        },
{
    let view_h: u128 = if viewport >= ROW_HEIGHT {
        viewport as u128
    } else {
        ROW_HEIGHT as u128
    };
    let content_h: u128 = count as u128 * 6144;
    let max_offset: u128 = if content_h > view_h {
        content_h - view_h
    } else {
        0
    };
    let top: u128 = index as u128 * 6144;
    let bottom: u128 = top + 6144;
    let at: u128 = scroll as u128;
    if top >= at && bottom <= at + view_h {
        return None;
    }
    let want: u128 = if top < at {
        top
    } else if bottom > view_h {
        bottom - view_h
    } else {
        0
    };
    let reach: u128 = if want <= max_offset {
        want
    } else {
        max_offset
    };
    let target: u128 = if reach <= u64::MAX as u128 {
        reach
    } else {
        u64::MAX as u128
    };
    let far: u128 = if target >= at {
        target - at
    } else {
        at - target
    };
    if far < 128 {
        None
    } else {
        Some(target as u64)
    }
}

// ---------------------------------------------------------------- grid

/// A tile's width in units.
pub open spec fn tile_width(mode: ViewMode) -> int {
    mode.tile().0 * UNIT
}

/// A tile's height in units.
pub open spec fn tile_height(mode: ViewMode) -> int {
    mode.tile().1 * UNIT
}

/// A tile's width and height in units.
pub fn tile_units(mode: ViewMode) -> (r: (u64, u64))
    ensures
        r.0 == tile_width(mode),
        r.1 == tile_height(mode),
        r.0 > 0,
        r.1 > 0,
{
    let (w, h) = mode.tile_size();
    (w as u64 * UNIT, h as u64 * UNIT)
}

/// How many tiles fit side by side in a pane of the given inner width.
pub open spec fn tiles_across(width: int, mode: ViewMode) -> int {
    most(most(width, tile_width(mode)) / tile_width(mode), 1)
}

fn tiles_in(width: u64, mode: ViewMode) -> (r: u64)
    ensures
        r == tiles_across(width as int, mode),
        r >= 1,
{
    let (w, _) = tile_units(mode);
    let room: u64 = if width >= w {
        width
    } else {
        w
    };
    let n: u64 = room / w;
    if n >= 1 {
        n
    } else {
        1
    }
}

/// How many columns the grid has in a pane of the given width: its padding and the
/// scrollbar take some of it.
pub open spec fn columns_in(pane_w: int, mode: ViewMode) -> int {
    tiles_across(pane_w - 2 * GRID_PAD - SCROLLBAR_ALLOWANCE, mode)
}

/// How many columns the grid has in a pane of the given width.
pub fn grid_columns(pane_w: u64, mode: ViewMode) -> (r: u64)
    ensures
        r == columns_in(pane_w as int, mode),
        r >= 1,
{
    let used: u64 = 2 * GRID_PAD + SCROLLBAR_ALLOWANCE;
    if pane_w >= used {
        tiles_in(pane_w - used, mode)
    } else {
        tiles_in(0, mode)
    }
}

/// How many tile rows hold `total` tiles in `cols` columns.
pub fn grid_rows(total: usize, cols: u64) -> (r: usize)
    requires
        cols >= 1,
    ensures
        r == covering(total as int, cols as int),
        r <= total,
        r * cols >= total,
{
    let c: u128 = cols as u128;
    let sum: u128 = total as u128 + c - 1;
    let rows: u128 = sum / c;
    proof {
        assert(rows <= total && rows * c >= total) by (nonlinear_arith)
            requires
                c >= 1,
                rows == sum / c,
                sum == total + c - 1,
                total >= 0,
        ;
    }
    rows as usize
}

/// The rows whose thumbnails are wanted: those of the tiles near the viewport, with one
/// column and a few rows to spare.
pub open spec fn thumb_range(
    scroll: int,
    viewport: int,
    pane_w: int,
    count: int,
    mode: ViewMode,
) -> (int, int) {
    let cols = tiles_across(pane_w - 2 * GRID_PAD, mode) + 1;
    let onscreen = covering(viewport, tile_height(mode)) + 1;
    let first = scroll / tile_height(mode);
    let start = least(most(first - GRID_OVERSCAN_ROWS, 0) * cols, count);
    let end = least((first + onscreen + GRID_OVERSCAN_ROWS) * cols, count);
    (start, end)
}

/// The rows whose thumbnails are wanted are rows.
pub proof fn lemma_thumb_range(scroll: int, viewport: int, pane_w: int, count: int, mode: ViewMode)
    requires
        scroll >= 0,
        viewport >= 0,
        count >= 0,
    ensures
        ({
            let r = thumb_range(scroll, viewport, pane_w, count, mode);
            0 <= r.0 <= r.1 <= count
        }),
{
    let cols = tiles_across(pane_w - 2 * GRID_PAD, mode) + 1;
    let height = tile_height(mode);
    assert(height > 0) by {
        assert(mode.tile().1 >= 1);
    }
    let onscreen = covering(viewport, height) + 1;
    let first = scroll / height;
    assert((viewport + height - 1) / height >= 0) by (nonlinear_arith)
        requires
            viewport >= 0,
            height > 0,
    ;
    assert(scroll / height >= 0) by (nonlinear_arith)
        requires
            scroll >= 0,
            height > 0,
    ;
    let f = most(first - GRID_OVERSCAN_ROWS, 0);
    let e = first + onscreen + GRID_OVERSCAN_ROWS;
    assert(0 <= f * cols <= e * cols) by (nonlinear_arith)
        requires
            0 <= f <= e,
            cols >= 0,
    ;
}

/// The rows whose thumbnails are wanted.
pub fn thumb_span(
    scroll: u64,
    viewport: u64,
    pane_w: u64,
    count: usize,
    mode: ViewMode,
) -> (r: (usize, usize))
    ensures
        (r.0 as int, r.1 as int) == thumb_range(
            scroll as int,
            viewport as int,
            pane_w as int,
            count as int,
            mode,
        ),
        r.0 <= r.1 <= count,
{
    let (_, h) = tile_units(mode);
    let pads: u64 = 2 * GRID_PAD;
    let inner: u64 = if pane_w >= pads {
        pane_w - pads
    } else {
        0
    };
    let cols: u128 = tiles_in(inner, mode) as u128 + 1;
    let height: u128 = h as u128;
    let wide: u128 = viewport as u128 + height - 1;
    let onscreen: u128 = wide / height + 1;
    let first: u128 = (scroll / h) as u128;
    let start_row: u128 = if first > 2 {
        first - 2
    } else {
        0
    };
    let end_row: u128 = first + onscreen + 2;
    proof {
        let a = wide as int;
        let b = height as int;
        assert(h >= 256) by {
            assert(mode.tile().1 >= 1);
        }
        assert(a / b <= a / 256) by (nonlinear_arith)
            requires
                a >= 0,
                b >= 256,
        ;
        let s = scroll as int;
        assert(s / b <= s / 256) by (nonlinear_arith)
            requires
                s >= 0,
                b >= 256,
        ;
        let c = cols as int;
        let e = end_row as int;
        let f = start_row as int;
        assert(0 <= f <= e);
        assert(e <= 0x3_0000_0000_0000_00);
        assert(c <= 0x1_0000_0000_0000_0000);
        assert(f * c <= e * c && e * c <= 0x3_0000_0000_0000_00 * 0x1_0000_0000_0000_0000)
            by (nonlinear_arith)
            requires
                0 <= f <= e,
                e <= 0x3_0000_0000_0000_00,
                0 <= c <= 0x1_0000_0000_0000_0000,
        ;
        assert(f * c >= 0) by (nonlinear_arith)
            requires
                f >= 0,
                c >= 0,
        ;
    }
    let from: u128 = start_row * cols;
    let to: u128 = end_row * cols;
    let n: u128 = count as u128;
    let start: usize = if from <= n {
        from as usize
    } else {
        count
    };
    let end: usize = if to <= n {
        to as usize
    } else {
        count
    };
    (start, end)
}

// ---------------------------------------------------------------- laws

/// Every row that shows in the viewport is among the rows that are built.
pub proof fn law_window_covers_the_viewport(
    scroll: int,
    viewport: int,
    count: int,
    row_h: int,
    overscan: int,
    i: int,
)
    requires
        scroll >= 0,
        viewport >= 0,
        row_h > 0,
        overscan >= 0,
        0 <= i < count,
        i * row_h < scroll + viewport,
        (i + 1) * row_h > scroll,
    ensures
        window(scroll, viewport, count, row_h, overscan).0 <= i < window(
            scroll,
            viewport,
            count,
            row_h,
            overscan,
        ).1,
{
    let first = scroll / row_h;
    let span = covering(viewport, row_h);
    assert(first * row_h <= scroll && scroll < (first + 1) * row_h) by (nonlinear_arith)
        requires
            first == scroll / row_h,
            row_h > 0,
            scroll >= 0,
    ;
    assert(span * row_h >= viewport && span >= 0) by (nonlinear_arith)
        requires
            span == (viewport + row_h - 1) / row_h,
            row_h > 0,
            viewport >= 0,
    ;
    assert(first <= i) by (nonlinear_arith)
        requires
            first * row_h <= scroll,
            (i + 1) * row_h > scroll,
            row_h > 0,
    ;
    assert(i < first + 1 + span) by (nonlinear_arith)
        requires
            i * row_h < scroll + viewport,
            scroll < (first + 1) * row_h,
            span * row_h >= viewport,
            row_h > 0,
    ;
    assert(first >= 0) by (nonlinear_arith)
        requires
            first == scroll / row_h,
            scroll >= 0,
            row_h > 0,
    ;
}

/// Scrolling to a row brings all of it into view.
pub proof fn law_scrolled_row_is_in_view(index: int, count: int, scroll: int, viewport: int)
    requires
        0 <= index < count,
        count * ROW_HEIGHT <= u64::MAX,
        scroll >= 0,
        scroll_for(index, count, scroll, viewport) is Some,
    ensures
        ({
            let at = scroll_for(index, count, scroll, viewport)->0;
            let view_h = most(viewport, ROW_HEIGHT as int);
            at >= 0 && index * ROW_HEIGHT >= at && (index + 1) * ROW_HEIGHT <= at + view_h
        }),
{
}

/// Once a row was scrolled into view, it needs no more scrolling.
pub proof fn law_scrolling_settles(index: int, count: int, scroll: int, viewport: int)
    requires
        0 <= index < count,
        count * ROW_HEIGHT <= u64::MAX,
        scroll >= 0,
        scroll_for(index, count, scroll, viewport) is Some,
    ensures
        scroll_for(index, count, scroll_for(index, count, scroll, viewport)->0, viewport) is None,
{
    law_scrolled_row_is_in_view(index, count, scroll, viewport);
}

/// The rows that are built are few: those of the viewport, the spare ones on both sides, and at
/// most two that are cut at its edges.
pub proof fn law_window_is_small(scroll: int, viewport: int, count: int, row_h: int, overscan: int)
    requires
        scroll >= 0,
        viewport >= 0,
        row_h > 0,
        overscan >= 0,
        count >= 0,
    ensures
        ({
            let w = window(scroll, viewport, count, row_h, overscan);
            &&& 0 <= w.0 <= w.1 <= count
            &&& (w.1 - w.0) * row_h < viewport + (2 + 2 * overscan) * row_h
        }),
{
    let w = window(scroll, viewport, count, row_h, overscan);
    let span = covering(viewport, row_h);
    assert(span >= 0 && span * row_h < viewport + row_h) by (nonlinear_arith)
        requires
            span == (viewport + row_h - 1) / row_h,
            row_h > 0,
            viewport >= 0,
    ;
    assert(scroll / row_h >= 0) by (nonlinear_arith)
        requires
            scroll >= 0,
            row_h > 0,
    ;
    if count > 0 {
        assert(w.1 - w.0 <= span + 1 + 2 * overscan);
        assert((w.1 - w.0) * row_h <= (span + 1 + 2 * overscan) * row_h) by (nonlinear_arith)
            requires
                w.1 - w.0 <= span + 1 + 2 * overscan,
                row_h > 0,
        ;
        assert((span + 1 + 2 * overscan) * row_h == span * row_h + row_h + 2 * overscan * row_h)
            by (nonlinear_arith);
        assert((2 + 2 * overscan) * row_h == 2 * row_h + 2 * overscan * row_h) by (nonlinear_arith);
    } else {
        assert((2 + 2 * overscan) * row_h > 0) by (nonlinear_arith)
            requires
                overscan >= 0,
                row_h > 0,
        ;
    }
}

/// A row that is in view needs no scrolling; and one that is not is brought to the nearest edge
/// of the viewport: to its top where it was above, to its bottom where it was below.
pub proof fn law_scrolling_is_as_little_as_possible(
    index: int,
    count: int,
    scroll: int,
    viewport: int,
)
    requires
        0 <= index < count,
        count * ROW_HEIGHT <= u64::MAX,
        scroll >= 0,
        viewport >= ROW_HEIGHT,
    ensures
        ({
            let top = index * ROW_HEIGHT;
            let bottom = top + ROW_HEIGHT;
            let to = scroll_for(index, count, scroll, viewport);
            &&& scroll <= top && bottom <= scroll + viewport ==> to is None
            &&& to matches Some(y) ==> if top < scroll {
                y <= top
            } else {
                y + viewport == bottom
            }
            &&& top < scroll && top + viewport <= count * ROW_HEIGHT && scroll - top >= 128 ==> to
                == Some(top)
            &&& bottom >= scroll + viewport + 128 ==> to == Some(bottom - viewport)
        }),
{
    assert(index * ROW_HEIGHT + ROW_HEIGHT <= count * ROW_HEIGHT) by (nonlinear_arith)
        requires
            index < count,
    ;
}

/// The grid has as many columns as fit beside one another into its pane, and at least one.
pub proof fn law_grid_has_as_many_columns_as_fit(pane_w: int, mode: ViewMode)
    requires
        pane_w >= 0,
    ensures
        ({
            let n = columns_in(pane_w, mode);
            let room = pane_w - 2 * GRID_PAD - SCROLLBAR_ALLOWANCE;
            &&& n >= 1
            &&& n == 1 || n * tile_width(mode) <= room
            &&& (n + 1) * tile_width(mode) > room
        }),
{
    let w = tile_width(mode);
    let room = pane_w - 2 * GRID_PAD - SCROLLBAR_ALLOWANCE;
    let wide = most(room, w);
    assert(w > 0) by {
        assert(mode.tile().0 >= 1);
    }
    assert(wide / w >= 1 && (wide / w) * w <= wide && wide < (wide / w + 1) * w) by (
    nonlinear_arith)
        requires
            w > 0,
            wide >= w,
    ;
    if wide != room {
        assert(wide / w == 1) by (nonlinear_arith)
            requires
                wide == w,
                w > 0,
        ;
    }
}

/// No tile that shows in the viewport lies behind those whose thumbnails are wanted; near the
/// top of the list, none lies before them either, so that all are wanted.
pub proof fn law_first_tiles_get_their_thumbnails(
    scroll: int,
    viewport: int,
    pane_w: int,
    count: int,
    mode: ViewMode,
    i: int,
)
    requires
        0 <= scroll,
        viewport >= 0,
        pane_w >= 0,
        0 <= i < count,
        (i / columns_in(pane_w, mode)) * tile_height(mode) < scroll + viewport,
    ensures
        ({
            let r = thumb_range(scroll, viewport, pane_w, count, mode);
            &&& i < r.1
            &&& scroll < 3 * tile_height(mode) ==> r.0 <= i
        }),
{
    let h = tile_height(mode);
    let w = tile_width(mode);
    assert(h > 0 && w > 0) by {
        assert(mode.tile().1 >= 1 && mode.tile().0 >= 1);
    }
    let c = columns_in(pane_w, mode);
    let cols = tiles_across(pane_w - 2 * GRID_PAD, mode) + 1;
    law_grid_has_as_many_columns_as_fit(pane_w, mode);
    let a = most(pane_w - 2 * GRID_PAD - SCROLLBAR_ALLOWANCE, w);
    let b = most(pane_w - 2 * GRID_PAD, w);
    assert(a / w <= b / w) by (nonlinear_arith)
        requires
            w > 0,
            w <= a <= b,
    ;
    assert(c < cols);
    let first = scroll / h;
    assert(0 <= first && (scroll < 3 * h ==> first <= 2)) by (nonlinear_arith)
        requires
            first == scroll / h,
            0 <= scroll,
            h > 0,
    ;
    let span = covering(viewport, h);
    let row = i / c;
    assert(span >= 0 && span * h >= viewport) by (nonlinear_arith)
        requires
            span == (viewport + h - 1) / h,
            h > 0,
            viewport >= 0,
    ;
    assert(scroll < (first + 1) * h) by (nonlinear_arith)
        requires
            first == scroll / h,
            h > 0,
    ;
    assert(row < first + 1 + span) by (nonlinear_arith)
        requires
            row * h < scroll + viewport,
            scroll < (first + 1) * h,
            span * h >= viewport,
            h > 0,
    ;
    assert(i < (row + 1) * c) by (nonlinear_arith)
        requires
            row == i / c,
            c >= 1,
            i >= 0,
    ;
    let e = first + (span + 1) + GRID_OVERSCAN_ROWS;
    assert((row + 1) * c <= e * cols) by (nonlinear_arith)
        requires
            0 <= row + 1 <= e,
            1 <= c <= cols,
    ;
    assert(row >= 0) by (nonlinear_arith)
        requires
            row == i / c,
            c >= 1,
            i >= 0,
    ;
    if scroll < 3 * h {
        assert(most(first - GRID_OVERSCAN_ROWS, 0) * cols == 0) by (nonlinear_arith)
            requires
                most(first - GRID_OVERSCAN_ROWS, 0) == 0,
        ;
    }
}

/// Spare rows are built too: whatever lies within the overscan of a row that shows in the
/// viewport is among the rows that are built.
pub proof fn law_window_has_spare_rows(
    scroll: int,
    viewport: int,
    count: int,
    row_h: int,
    overscan: int,
    shown: int,
    i: int,
)
    requires
        scroll >= 0,
        viewport >= 0,
        row_h > 0,
        overscan >= 0,
        0 <= shown < count,
        shown * row_h < scroll + viewport,
        (shown + 1) * row_h > scroll,
        0 <= i < count,
        shown - overscan <= i <= shown + overscan,
    ensures
        window(scroll, viewport, count, row_h, overscan).0 <= i < window(
            scroll,
            viewport,
            count,
            row_h,
            overscan,
        ).1,
{
    law_window_covers_the_viewport(scroll, viewport, count, row_h, 0, shown);
    let first = scroll / row_h;
    assert(first >= 0) by (nonlinear_arith)
        requires
            first == scroll / row_h,
            scroll >= 0,
            row_h > 0,
    ;
    assert(first <= shown) by (nonlinear_arith)
        requires
            first == scroll / row_h,
            (shown + 1) * row_h > scroll,
            row_h > 0,
    ;
}

} // verus!
