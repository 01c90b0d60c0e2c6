use vstd::prelude::*;

verus! {

/// The first of `count` rows (or columns) that a view scrolled to `offset`
/// shows: `offset`, or the last one where `offset` is past it.
pub open spec fn visible_start(offset: usize, count: usize) -> int {
    if count == 0 {
        0
    } else if offset < count {
        offset as int
    } else {
        count - 1
    }
}

/// The part of `count` rows (or columns) that a view with room for `room`
/// shows, scrolled to `offset`: the first shown is `offset`, or the last
/// one where `offset` is past it, and as many follow as there is room.
pub fn visible_range(offset: usize, count: usize, room: usize) -> (r: (usize, usize))
    requires
        visible_start(offset, count) + room <= usize::MAX,
    ensures
        r.0 == visible_start(offset, count),
        r.1 == (if r.0 + room < count {
            r.0 + room
        } else {
            count as int
        }),
        r.0 <= r.1 <= count || count == 0,
{
    let last = count.saturating_sub(1);
    let start = if offset < last {
        offset
    } else {
        last
    };
    let end = if start + room < count {
        start + room
    } else {
        count
    };
    (start, end)
}

/// The first log line that a view of `visible` lines shows: the last page
/// when it follows new lines, and otherwise the scroll position, kept within
/// the last page.
pub fn first_visible_log(autoscroll: bool, scroll: usize, logs: usize, visible: usize) -> (r: usize)
    ensures
        r == (if autoscroll {
            if logs > visible {
                logs - visible
            } else {
                0
            }
        } else {
            let last_page = if logs > visible {
                logs - visible
            } else {
                0
            };
            if scroll < last_page {
                scroll as int
            } else {
                last_page
            }
        }),
{
    let last_page = logs.saturating_sub(visible);
    if autoscroll {
        last_page
    } else if scroll < last_page {
        scroll
    } else {
        last_page
    }
}

/// How far a one-line field of `width` columns is scrolled so that the
/// cursor stays in view.
pub fn input_scroll_offset(cursor: usize, width: usize) -> (r: usize)
    ensures
        r == (if width > 0 && cursor >= width {
            cursor - width + 1
        } else {
            0
        }),
        width > 0 ==> r <= cursor && cursor < r + width,
{
    if width == 0 {
        0
    } else if cursor >= width {
        cursor - width + 1
    } else {
        0
    }
}

} // verus!
