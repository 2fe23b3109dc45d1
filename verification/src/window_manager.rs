//! The windows under management and what the manager records about them.
use vstd::prelude::*;
use crate::direction::abs;
use crate::geometry::Rect;
use crate::window::{is_maximized, is_minimized, Window, WS_MAXIMIZE, WS_MINIMIZE};

verus! {

/// Keeps the managed windows.
pub struct WindowManager {
    windows: Vec<Window>,
}

impl View for WindowManager {
    type V = Seq<Window>;

    closed spec fn view(&self) -> Seq<Window> {
        self.windows@
    }
}

/// Some window has the handle.
pub open spec fn has_window(ws: Seq<Window>, hwnd: isize) -> bool {
    exists|i: int| 0 <= i < ws.len() && (#[trigger] ws[i]).hwnd == hwnd
}

/// `i` is the first window with the handle.
pub open spec fn is_first_window(ws: Seq<Window>, hwnd: isize, i: int) -> bool {
    &&& 0 <= i < ws.len()
    &&& ws[i].hwnd == hwnd
    &&& forall|j: int| 0 <= j < i ==> (#[trigger] ws[j]).hwnd != hwnd
}

/// The handles of the managed windows, leaving out the minimized ones when asked.
pub open spec fn managed_list(ws: Seq<Window>, exclude_minimized: bool) -> Seq<isize> {
    ws.filter(|w: Window| !exclude_minimized || !is_minimized(w.style)).map_values(
        |w: Window| w.hwnd,
    )
}

/// The same window with another style.
pub open spec fn with_style(w: Window, style: i32) -> Window {
    Window { style: style, ..w }
}

/// The same window with another scale.
pub open spec fn with_dpi(w: Window, dpi: u32) -> Window {
    Window { dpi: dpi, ..w }
}

/// The same window with another recorded area.
pub open spec fn with_rect(w: Window, rect: Rect) -> Window {
    Window { rect: rect, ..w }
}

/// The border width of a window as a signed number.
pub open spec fn border(w: Window) -> int {
    (w.border_thickness as i32) as int
}

/// The four differences between a window's frame and client edges.
pub open spec fn frame_deltas(w: Window) -> (int, int, int, int) {
    (
        w.info.window_rect.left - w.info.client_rect.left,
        w.info.window_rect.top - w.info.client_rect.top,
        w.info.window_rect.right - w.info.client_rect.right,
        w.info.window_rect.bottom - w.info.client_rect.bottom,
    )
}

/// A value fits in 32 bits and is not the smallest one (so that its absolute value fits).
pub open spec fn abs_in_range(x: int) -> bool {
    i32::MIN < x <= i32::MAX
}

/// A value fits in 32 bits.
pub open spec fn in_range(x: int) -> bool {
    i32::MIN <= x <= i32::MAX
}

/// Placing the window at `p` stays within 32-bit arithmetic.
pub open spec fn placement_in_range(w: Window, p: Rect) -> bool {
    let (dl, dt, dr, db) = frame_deltas(w);
    &&& abs_in_range(dl) && abs_in_range(dt) && abs_in_range(dr) && abs_in_range(db)
    &&& in_range(p.left - abs(dl)) && in_range(p.left - abs(dl) - border(w))
    &&& in_range(p.top - abs(dt)) && in_range(p.top - abs(dt) - border(w))
    &&& in_range(p.right + abs(dr)) && in_range(p.right + abs(dr) + border(w))
    &&& in_range(p.bottom + abs(db)) && in_range(p.bottom + abs(db) + border(w))
}

/// The outer rectangle that makes the window's client area cover `p`: `p`
/// grown by the frame-to-client differences and by the border width.
pub open spec fn framed_rect(w: Window, p: Rect) -> Rect {
    let (dl, dt, dr, db) = frame_deltas(w);
    Rect {
        left: (p.left - abs(dl) - border(w)) as i32,
        top: (p.top - abs(dt) - border(w)) as i32,
        right: (p.right + abs(dr) + border(w)) as i32,
        bottom: (p.bottom + abs(db) + border(w)) as i32,
    }
}

/// The handles of the managed windows that the system no longer knows, in
/// order, each once: window `i` is gone when `still_exists[i]` is false.
pub open spec fn gone_hwnds(ws: Seq<Window>, still_exists: Seq<bool>) -> Seq<isize>
    decreases ws.len(),
{
    if ws.len() == 0 {
        Seq::empty()
    } else {
        let rest = gone_hwnds(ws.drop_last(), still_exists.take(ws.len() - 1));
        if !still_exists[ws.len() - 1] && !rest.contains(ws.last().hwnd) {
            rest.push(ws.last().hwnd)
        } else {
            rest
        }
    }
}

/// The handles found gone are distinct.
pub proof fn lemma_gone_distinct(ws: Seq<Window>, still_exists: Seq<bool>)
    ensures
        forall|a: int, b: int|
            0 <= a < b < gone_hwnds(ws, still_exists).len() ==> #[trigger] gone_hwnds(ws, still_exists)[a]
                != #[trigger] gone_hwnds(ws, still_exists)[b],
    decreases ws.len(),
{
    if ws.len() > 0 {
        let rest = gone_hwnds(ws.drop_last(), still_exists.take(ws.len() - 1));
        lemma_gone_distinct(ws.drop_last(), still_exists.take(ws.len() - 1));
        let g = gone_hwnds(ws, still_exists);
        assert forall|a: int, b: int| 0 <= a < b < g.len() implies g[a] != g[b] by {
            if b == rest.len() {
                assert(g[a] == rest[a]);
                assert(rest.contains(rest[a]));
            } else {
                assert(g[a] == rest[a] && g[b] == rest[b]);
            }
        }
    }
}

/// The managed windows without those whose handle is gone.
pub open spec fn pruned(ws: Seq<Window>, still_exists: Seq<bool>) -> Seq<Window> {
    ws.filter(|x: Window| !gone_hwnds(ws, still_exists).contains(x.hwnd))
}

/// What the system must do to place a window.
#[derive(Clone, Copy, PartialEq, Eq, Structural, Debug)]
pub enum PositionUpdate {
    /// The window is minimized and stays where it is.
    Skip,
    /// Restore the window first when asked, then give it the rectangle;
    /// when its scale changed, give it the rectangle a second time.
    Apply { restore_first: bool, rect: Rect, dpi_changed: bool },
}

/// How a window is placed at `p` when its current scale is `dpi`.
pub open spec fn position_update(w: Window, p: Rect, dpi: u32) -> PositionUpdate {
    if is_minimized(w.style) {
        PositionUpdate::Skip
    } else {
        PositionUpdate::Apply {
            restore_first: is_maximized(w.style),
            rect: framed_rect(w, p),
            dpi_changed: dpi != w.dpi,
        }
    }
}

/// Two windows differ at most in their recorded area.
pub open spec fn same_but_rect(a: Window, b: Window) -> bool {
    &&& a.hwnd == b.hwnd
    &&& a.style == b.style
    &&& a.dpi == b.dpi
    &&& a.info == b.info
    &&& a.border_thickness == b.border_thickness
}

/// The windows after windows from a fresh enumeration are merged in, one
/// after the other: each replaces the windows with its handle and goes last.
pub open spec fn merged(ws: Seq<Window>, live: Seq<Window>) -> Seq<Window>
    decreases live.len(),
{
    if live.len() == 0 {
        ws
    } else {
        merged(ws, live.drop_last()).filter(|w: Window| w.hwnd != live.last().hwnd).push(
            live.last(),
        )
    }
}

/// The handles of the enumerated windows that were not managed yet when they were merged in.
pub open spec fn newly_added(ws: Seq<Window>, live: Seq<Window>) -> Seq<isize>
    decreases live.len(),
{
    if live.len() == 0 {
        Seq::empty()
    } else if has_window(merged(ws, live.drop_last()), live.last().hwnd) {
        newly_added(ws, live.drop_last())
    } else {
        newly_added(ws, live.drop_last()).push(live.last().hwnd)
    }
}

/// Windows that differ at most in their recorded areas have the same first
/// window for each handle.
pub proof fn lemma_first_window_same(a: Seq<Window>, b: Seq<Window>, hwnd: isize, i: int)
    requires
        a.len() == b.len(),
        forall|j: int| 0 <= j < a.len() ==> same_but_rect(#[trigger] b[j], a[j]),
    ensures
        is_first_window(a, hwnd, i) <==> is_first_window(b, hwnd, i),
{
    if 0 <= i < a.len() {
        assert(same_but_rect(b[i], a[i]));
        if is_first_window(a, hwnd, i) {
            assert forall|j: int| 0 <= j < i implies (#[trigger] b[j]).hwnd != hwnd by {
                assert(same_but_rect(b[j], a[j]));
                assert(a[j].hwnd != hwnd);
            }
        }
        if is_first_window(b, hwnd, i) {
            assert forall|j: int| 0 <= j < i implies (#[trigger] a[j]).hwnd != hwnd by {
                assert(same_but_rect(b[j], a[j]));
                assert(b[j].hwnd != hwnd);
            }
        }
    }
}

/// One placement in a series keeps the windows' other facts and decides from
/// what was known before the series.
pub proof fn lemma_set_position_step(
    orig: Seq<Window>,
    before: Seq<Window>,
    after: Seq<Window>,
    hwnd: isize,
    rect: Rect,
    dpi: u32,
    u: PositionUpdate,
)
    requires
        before.len() == orig.len(),
        forall|j: int| 0 <= j < orig.len() ==> same_but_rect(#[trigger] before[j], orig[j]),
        exists|i: int|
            #![trigger before[i]]
            is_first_window(before, hwnd, i) && u == position_update(before[i], rect, dpi) && if is_minimized(
                before[i].style,
            ) {
                after == before
            } else {
                after == before.update(i, with_rect(before[i], rect))
            },
    ensures
        after.len() == orig.len(),
        forall|j: int| 0 <= j < orig.len() ==> same_but_rect(#[trigger] after[j], orig[j]),
        forall|i: int| is_first_window(orig, hwnd, i) ==> u == position_update(#[trigger] orig[i], rect, dpi),
{
    let i1 = choose|i: int|
        #![trigger before[i]]
        is_first_window(before, hwnd, i) && u == position_update(before[i], rect, dpi) && if is_minimized(
            before[i].style,
        ) {
            after == before
        } else {
            after == before.update(i, with_rect(before[i], rect))
        };
    assert forall|j: int| 0 <= j < orig.len() implies same_but_rect(#[trigger] after[j], orig[j]) by {
        assert(same_but_rect(before[j], orig[j]));
    }
    assert forall|i: int| is_first_window(orig, hwnd, i) implies u == position_update(
        #[trigger] orig[i],
        rect,
        dpi,
    ) by {
        lemma_first_window_same(orig, before, hwnd, i);
        lemma_first_window_same(orig, before, hwnd, i1);
        if i < i1 {
            assert(orig[i].hwnd == hwnd);
        } else if i1 < i {
            assert(orig[i1].hwnd == hwnd);
        }
        assert(same_but_rect(before[i], orig[i]));
    }
}

impl WindowManager {
    /// A manager of the given windows.
    pub fn new(windows: Vec<Window>) -> (r: Self)
        ensures
            r@ == windows@,
    {
        Self { windows }
    }

    /// The foreground window, which must be managed.
    pub fn current_window(&self, foreground: isize) -> (r: isize)
        requires
            has_window(self@, foreground),
        ensures
            r == foreground,
    {
        let i = self.find(foreground);
        self.windows[i].hwnd
    }

    /// The handles of the managed windows, leaving out the minimized ones when asked.
    pub fn managed_hwnds(&self, exclude_minimized: bool) -> (r: Vec<isize>)
        ensures
            r@ == managed_list(self@, exclude_minimized),
    {
        let ghost pred = |w: Window| !exclude_minimized || !is_minimized(w.style);
        let mut r: Vec<isize> = Vec::new();
        let mut i: usize = 0;
        while i < self.windows.len()
            invariant
                0 <= i <= self.windows.len(),
                pred == (|w: Window| !exclude_minimized || !is_minimized(w.style)),
                r@ == self@.take(i as int).filter(pred).map_values(|w: Window| w.hwnd),
            decreases self.windows.len() - i,
        {
            proof {
                reveal(Seq::filter);
                assert(self@.take(i + 1).drop_last() =~= self@.take(i as int));
            }
            let w = &self.windows[i];
            if !exclude_minimized || w.style & WS_MINIMIZE == 0 {
                let ghost before = r@;
                r.push(w.hwnd);
                assert(self@.take(i + 1).filter(pred) == self@.take(i as int).filter(pred).push(
                    self@[i as int],
                ));
                assert(r@ =~= self@.take(i + 1).filter(pred).map_values(|w: Window| w.hwnd));
            }
            i = i + 1;
        }
        assert(self@.take(self.windows.len() as int) =~= self@);
        r
    }

    /// Takes a window under management, replacing what was known of a window
    /// with the same handle; `None` (a window the manager does not handle)
    /// changes nothing. Tells whether the window should be laid out: it was
    /// given and is not minimized.
    pub fn add_window(&mut self, window: Option<Window>) -> (r: bool)
        ensures
            match window {
                None => final(self)@ == old(self)@ && !r,
                Some(w) => final(self)@ == old(self)@.filter(|x: Window| x.hwnd != w.hwnd).push(w)
                    && r == !is_minimized(w.style),
            },
    {
        match window {
            None => false,
            Some(window) => {
                let hwnd = window.hwnd;
                self.remove_hwnd(hwnd);
                let style = window.style;
                self.windows.push(window);
                style & WS_MINIMIZE == 0
            },
        }
    }

    /// Records the style that a window has after the system changed it
    /// (minimized, maximized or restored it).
    pub fn set_style(&mut self, hwnd: isize, style: i32)
        requires
            has_window(old(self)@, hwnd),
        ensures
            exists|i: int|
                #![trigger old(self)@[i]]
                is_first_window(old(self)@, hwnd, i) && final(self)@ == old(self)@.update(
                    i,
                    with_style(old(self)@[i], style),
                ),
    {
        let i = self.find(hwnd);
        let mut w = self.windows.remove(i);
        w.style = style;
        self.windows.insert(i, w);
        assert(self@ =~= old(self)@.update(i as int, with_style(old(self)@[i as int], style)));
    }

    /// Forgets the scale of a window that moved to another monitor, so that
    /// its next placement is done twice.
    pub fn update_dpi(&mut self, hwnd: isize)
        requires
            has_window(old(self)@, hwnd),
        ensures
            exists|i: int|
                #![trigger old(self)@[i]]
                is_first_window(old(self)@, hwnd, i) && final(self)@ == old(self)@.update(
                    i,
                    with_dpi(old(self)@[i], 0),
                ),
    {
        let i = self.find(hwnd);
        let mut w = self.windows.remove(i);
        w.dpi = 0;
        self.windows.insert(i, w);
        assert(self@ =~= old(self)@.update(i as int, with_dpi(old(self)@[i as int], 0)));
    }

    /// Decides how to place a window at `position`, given its current scale:
    /// a minimized window is skipped; otherwise the position is recorded, a
    /// maximized window is restored first, and the window gets the outer
    /// rectangle that makes its client area cover the position.
    pub fn set_position(&mut self, hwnd: isize, position: Rect, current_dpi: u32) -> (r:
        PositionUpdate)
        requires
            has_window(old(self)@, hwnd),
            forall|i: int|
                is_first_window(old(self)@, hwnd, i) && !is_minimized(old(self)@[i].style)
                    ==> placement_in_range(#[trigger] old(self)@[i], position),
        ensures
            exists|i: int|
                #![trigger old(self)@[i]]
                is_first_window(old(self)@, hwnd, i) && r == position_update(
                    old(self)@[i],
                    position,
                    current_dpi,
                ) && if is_minimized(old(self)@[i].style) {
                    final(self)@ == old(self)@
                } else {
                    final(self)@ == old(self)@.update(i, with_rect(old(self)@[i], position))
                },
    {
        let i = self.find(hwnd);
        let style = self.windows[i].style;
        if style & WS_MINIMIZE != 0 {
            return PositionUpdate::Skip;
        }
        let restore_first = style & WS_MAXIMIZE != 0;
        let mut w = self.windows.remove(i);
        w.rect = position;
        let info = w.info;
        let b: i32 = #[verifier::truncate] (w.border_thickness as i32);
        let dl: i32 = info.window_rect.left - info.client_rect.left;
        let dr: i32 = info.window_rect.right - info.client_rect.right;
        let dt: i32 = info.window_rect.top - info.client_rect.top;
        let db: i32 = info.window_rect.bottom - info.client_rect.bottom;
        let dl: i32 = if dl < 0 {
            -dl
        } else {
            dl
        };
        let dr: i32 = if dr < 0 {
            -dr
        } else {
            dr
        };
        let dt: i32 = if dt < 0 {
            -dt
        } else {
            dt
        };
        let db: i32 = if db < 0 {
            -db
        } else {
            db
        };
        let mut p = position;
        p.left = p.left - dl;
        p.right = p.right + dr;
        p.top = p.top - dt;
        p.bottom = p.bottom + db;
        p.left = p.left - b;
        p.top = p.top - b;
        p.right = p.right + b;
        p.bottom = p.bottom + b;
        let dpi_changed = current_dpi != w.dpi;
        self.windows.insert(i, w);
        assert(self@ =~= old(self)@.update(i as int, with_rect(old(self)@[i as int], position)));
        PositionUpdate::Apply { restore_first, rect: p, dpi_changed }
    }

    /// Decides how to place several windows, one after the other, each at its
    /// position and with its current scale (see `set_position`).
    pub fn set_positions(&mut self, positions: &Vec<(isize, Rect)>, current_dpis: &Vec<u32>) -> (r:
        Vec<PositionUpdate>)
        requires
            current_dpis.len() == positions.len(),
            forall|k: int|
                0 <= k < positions.len() ==> has_window(old(self)@, (#[trigger] positions@[k]).0),
            forall|k: int, i: int|
                0 <= k < positions.len() && is_first_window(old(self)@, positions@[k].0, i)
                    && !is_minimized(old(self)@[i].style)
                    ==> placement_in_range(#[trigger] old(self)@[i], #[trigger] positions@[k].1),
        ensures
            r.len() == positions.len(),
            final(self)@.len() == old(self)@.len(),
            forall|j: int|
                0 <= j < old(self)@.len() ==> same_but_rect(#[trigger] final(self)@[j], old(self)@[j]),
            forall|k: int, i: int|
                0 <= k < positions.len() && is_first_window(old(self)@, positions@[k].0, i)
                    ==> #[trigger] r@[k] == position_update(
                    #[trigger] old(self)@[i],
                    positions@[k].1,
                    current_dpis@[k],
                ),
    {
        let mut r: Vec<PositionUpdate> = Vec::new();
        let mut k: usize = 0;
        while k < positions.len()
            invariant
                0 <= k <= positions.len(),
                r.len() == k,
                current_dpis.len() == positions.len(),
                self@.len() == old(self)@.len(),
                forall|j: int| 0 <= j < self@.len() ==> same_but_rect(#[trigger] self@[j], old(self)@[j]),
                forall|k: int|
                    0 <= k < positions.len() ==> has_window(old(self)@, (#[trigger] positions@[k]).0),
                forall|k: int, i: int|
                    0 <= k < positions.len() && is_first_window(old(self)@, positions@[k].0, i)
                        && !is_minimized(old(self)@[i].style)
                        ==> placement_in_range(#[trigger] old(self)@[i], #[trigger] positions@[k].1),
                forall|kk: int, i: int|
                    0 <= kk < k && is_first_window(old(self)@, positions@[kk].0, i)
                        ==> #[trigger] r@[kk] == position_update(
                        #[trigger] old(self)@[i],
                        positions@[kk].1,
                        current_dpis@[kk],
                    ),
            decreases positions.len() - k,
        {
            let (hwnd, rect) = positions[k];
            let dpi = current_dpis[k];
            proof {
                assert(positions@[k as int].0 == hwnd && positions@[k as int].1 == rect);
                let i0 = choose|i: int| 0 <= i < old(self)@.len() && (#[trigger] old(self)@[i]).hwnd == hwnd;
                assert(same_but_rect(self@[i0], old(self)@[i0]));
                assert forall|i: int| is_first_window(self@, hwnd, i) && !is_minimized(self@[i].style) implies placement_in_range(
                    #[trigger] self@[i],
                    rect,
                ) by {
                    lemma_first_window_same(old(self)@, self@, hwnd, i);
                    assert(same_but_rect(self@[i], old(self)@[i]));
                }
            }
            let ghost before = self@;
            let u = self.set_position(hwnd, rect, dpi);
            proof {
                lemma_set_position_step(old(self)@, before, self@, hwnd, rect, dpi, u);
            }
            let ghost r0 = r@;
            r.push(u);
            proof {
                assert forall|kk: int, i: int|
                    0 <= kk < k + 1 && is_first_window(old(self)@, positions@[kk].0, i)
                        implies #[trigger] r@[kk] == position_update(
                        #[trigger] old(self)@[i],
                        positions@[kk].1,
                        current_dpis@[kk],
                    ) by {
                    if kk < k {
                        assert(r@[kk] == r0[kk]);
                    }
                }
            }
            k = k + 1;
        }
        r
    }

    /// Merges a fresh enumeration of the system's windows into the managed
    /// ones. `still_exists` tells, for each managed window, whether the
    /// system still knows it: every window whose handle is found gone is
    /// forgotten (see `pruned`). Gives the handles removed (see `gone_hwnds`)
    /// and the handles of the enumerated windows that were not managed yet.
    pub fn validate_windows(&mut self, still_exists: &Vec<bool>, live: Vec<Window>) -> (r: (
        Vec<isize>,
        Vec<isize>,
    ))
        requires
            still_exists.len() == old(self)@.len(),
        ensures
            r.0@ == gone_hwnds(old(self)@, still_exists@),
            final(self)@ == merged(pruned(old(self)@, still_exists@), live@),
            r.1@ == newly_added(pruned(old(self)@, still_exists@), live@),
    {
        let ghost ws = self@;
        let n = self.windows.len();
        let mut removed: Vec<isize> = Vec::new();
        let mut i: usize = 0;
        while i < n
            invariant
                0 <= i <= n,
                n == ws.len(),
                ws == self@,
                still_exists.len() == n,
                removed@ == gone_hwnds(ws.take(i as int), still_exists@.take(i as int)),
            decreases n - i,
        {
            proof {
                assert(ws.take(i + 1).drop_last() =~= ws.take(i as int));
                assert(still_exists@.take(i + 1).take(i as int) =~= still_exists@.take(i as int));
            }
            let hwnd = self.windows[i].hwnd;
            if !still_exists[i] && !crate::group::vec_contains(&removed, hwnd) {
                removed.push(hwnd);
            }
            i = i + 1;
        }
        proof {
            assert(ws.take(n as int) =~= ws);
            assert(still_exists@.take(n as int) =~= still_exists@);
        }
        self.remove_hwnds(&removed);
        assert(self@ == pruned(old(self)@, still_exists@));
        let mut added: Vec<isize> = Vec::new();
        let ghost ws0 = self@;
        let mut live = live;
        let ghost lv = live@;
        let mut k: usize = 0;
        let total = live.len();
        assert(lv.take(0) =~= Seq::<Window>::empty());
        assert(lv.skip(0) =~= lv);
        while k < total
            invariant
                0 <= k <= total,
                total == lv.len(),
                live@ =~= lv.skip(k as int),
                self@ == merged(ws0, lv.take(k as int)),
                added@ == newly_added(ws0, lv.take(k as int)),
            decreases total - k,
        {
            let window = live.remove(0);
            assert(window == lv[k as int]);
            assert(live@ =~= lv.skip(k + 1));
            assert(lv.take(k + 1).drop_last() =~= lv.take(k as int));
            let hwnd = window.hwnd;
            let present = self.has_hwnd(hwnd);
            if present {
                self.remove_hwnd(hwnd);
            } else {
                added.push(hwnd);
                self.remove_hwnd(hwnd);
            }
            self.windows.push(window);
            assert(self@ =~= merged(ws0, lv.take(k + 1)));
            k = k + 1;
        }
        assert(lv.take(total as int) =~= lv);
        (removed, added)
    }

    /// Whether some window has the handle.
    pub fn has_hwnd(&self, hwnd: isize) -> (r: bool)
        ensures
            r == has_window(self@, hwnd),
    {
        let mut i: usize = 0;
        while i < self.windows.len()
            invariant
                0 <= i <= self.windows.len(),
                forall|j: int| 0 <= j < i ==> (#[trigger] self@[j]).hwnd != hwnd,
            decreases self.windows.len() - i,
        {
            if self.windows[i].hwnd == hwnd {
                return true;
            }
            i = i + 1;
        }
        false
    }

    /// The first window with the handle.
    fn find(&self, hwnd: isize) -> (r: usize)
        requires
            has_window(self@, hwnd),
        ensures
            is_first_window(self@, hwnd, r as int),
    {
        let mut i: usize = 0;
        while i < self.windows.len()
            invariant
                0 <= i <= self.windows.len(),
                has_window(self@, hwnd),
                forall|j: int| 0 <= j < i ==> (#[trigger] self@[j]).hwnd != hwnd,
            decreases self.windows.len() - i,
        {
            if self.windows[i].hwnd == hwnd {
                return i;
            }
            i = i + 1;
        }
        proof {
            let k = choose|k: int| 0 <= k < self@.len() && (#[trigger] self@[k]).hwnd == hwnd;
        }
        0
    }

    /// Forgets every window whose handle is listed.
    fn remove_hwnds(&mut self, hwnds: &Vec<isize>)
        ensures
            final(self)@ == old(self)@.filter(|x: Window| !hwnds@.contains(x.hwnd)),
    {
        let ghost pred = |x: Window| !hwnds@.contains(x.hwnd);
        let mut kept: Vec<Window> = Vec::new();
        let mut old_windows: Vec<Window> = Vec::new();
        std::mem::swap(&mut old_windows, &mut self.windows);
        let ghost ow = old_windows@;
        assert(ow == old(self)@);
        let n = old_windows.len();
        assert(ow.skip(0) =~= ow);
        let mut k: usize = 0;
        while k < n
            invariant
                0 <= k <= n,
                n == ow.len(),
                old_windows@ =~= ow.skip(k as int),
                pred == (|x: Window| !hwnds@.contains(x.hwnd)),
                kept@ == ow.take(k as int).filter(pred),
            decreases n - k,
        {
            proof {
                reveal(Seq::filter);
                assert(ow.take(k + 1).drop_last() =~= ow.take(k as int));
            }
            let w = old_windows.remove(0);
            assert(w == ow[k as int]);
            assert(old_windows@ =~= ow.skip(k + 1));
            if !crate::group::vec_contains(hwnds, w.hwnd) {
                kept.push(w);
            }
            k = k + 1;
        }
        assert(ow.take(n as int) =~= ow);
        self.windows = kept;
    }

    /// Forgets every window with the handle.
    fn remove_hwnd(&mut self, hwnd: isize)
        ensures
            final(self)@ == old(self)@.filter(|x: Window| x.hwnd != hwnd),
    {
        let ghost pred = |x: Window| x.hwnd != hwnd;
        let mut kept: Vec<Window> = Vec::new();
        let mut old_windows: Vec<Window> = Vec::new();
        std::mem::swap(&mut old_windows, &mut self.windows);
        let ghost ow = old_windows@;
        assert(ow == old(self)@);
        let n = old_windows.len();
        assert(ow.skip(0) =~= ow);
        let mut k: usize = 0;
        while k < n
            invariant
                0 <= k <= n,
                n == ow.len(),
                old_windows@ =~= ow.skip(k as int),
                pred == (|x: Window| x.hwnd != hwnd),
                kept@ == ow.take(k as int).filter(pred),
            decreases n - k,
        {
            proof {
                reveal(Seq::filter);
                assert(ow.take(k + 1).drop_last() =~= ow.take(k as int));
            }
            let w = old_windows.remove(0);
            assert(w == ow[k as int]);
            assert(old_windows@ =~= ow.skip(k + 1));
            if w.hwnd != hwnd {
                kept.push(w);
            }
            k = k + 1;
        }
        assert(ow.take(n as int) =~= ow);
        self.windows = kept;
    }
}

/// Window `a` comes before window `b` in a stable sort by handle.
pub open spec fn hwnd_before(ws: Seq<Window>, a: int, b: int) -> bool {
    ws[a].hwnd < ws[b].hwnd || (ws[a].hwnd == ws[b].hwnd && a < b)
}

/// `idx` lists the positions of `ws` in the order of a stable sort by handle.
pub open spec fn is_hwnd_order(ws: Seq<Window>, idx: Seq<int>) -> bool {
    &&& idx.len() == ws.len()
    &&& forall|i: int| 0 <= i < idx.len() ==> 0 <= #[trigger] idx[i] < ws.len()
    &&& forall|k: int| 0 <= k < ws.len() ==> #[trigger] idx.contains(k)
    &&& forall|i: int, j: int| 0 <= i < j < idx.len() ==> hwnd_before(ws, #[trigger] idx[i], #[trigger] idx[j])
}

/// The windows at the given positions.
pub open spec fn windows_at(ws: Seq<Window>, idx: Seq<int>) -> Seq<Window> {
    idx.map_values(|k: int| ws[k])
}

/// Two windows count as the same: they share the handle, the title, the
/// thread or the process.
pub open spec fn same_window(a: Window, b: Window) -> bool {
    a.hwnd == b.hwnd || a.title@ == b.title@ || a.thread_id == b.thread_id || a.process_id == b.process_id
}

/// The windows, each left out when it counts as the same as the last window kept.
pub open spec fn dedup_windows(ws: Seq<Window>) -> Seq<Window>
    decreases ws.len(),
{
    if ws.len() == 0 {
        Seq::empty()
    } else {
        let kept = dedup_windows(ws.drop_last());
        if kept.len() > 0 && same_window(ws.last(), kept.last()) {
            kept
        } else {
            kept.push(ws.last())
        }
    }
}

/// The windows of an enumeration, sorted by handle (windows with the same
/// handle keeping their order), each left out when it counts as the same as
/// the last window kept.
pub fn distinct_windows(windows: Vec<Window>) -> (r: Vec<Window>)
    ensures
        exists|idx: Seq<int>| is_hwnd_order(windows@, idx) && r@ == dedup_windows(windows_at(windows@, idx)),
{
    let ghost ws = windows@;
    let mut rest = windows;
    let mut sorted: Vec<Window> = Vec::new();
    let ghost mut idx: Seq<int> = Seq::empty();
    let mut k: usize = 0;
    let n = rest.len();
    assert(ws.skip(0) =~= ws);
    while k < n
        invariant
            0 <= k <= n,
            n == ws.len(),
            rest@ == ws.skip(k as int),
            idx.len() == sorted.len() == k,
            sorted@ == windows_at(ws, idx),
            forall|i: int| 0 <= i < idx.len() ==> 0 <= #[trigger] idx[i] < k,
            forall|j: int| 0 <= j < k ==> #[trigger] idx.contains(j),
            forall|i: int, j: int| 0 <= i < j < idx.len() ==> hwnd_before(ws, #[trigger] idx[i], #[trigger] idx[j]),
        decreases n - k,
    {
        let w = rest.remove(0);
        assert(w == ws[k as int]);
        assert(rest@ =~= ws.skip(k + 1));
        let key = w.hwnd;
        let mut p: usize = 0;
        while p < sorted.len() && sorted[p].hwnd <= key
            invariant
                0 <= p <= sorted.len(),
                sorted@ == windows_at(ws, idx),
                idx.len() == sorted.len(),
                key == ws[k as int].hwnd,
                forall|i: int| 0 <= i < p ==> ws[#[trigger] idx[i]].hwnd <= key,
            decreases sorted.len() - p,
        {
            p = p + 1;
        }
        let ghost old_idx = idx;
        proof {
            if p < old_idx.len() {
                assert(ws[old_idx[p as int]].hwnd > key);
            }
        }
        sorted.insert(p, w);
        proof {
            idx = old_idx.insert(p as int, k as int);
            assert(sorted@ =~= windows_at(ws, idx));
            assert forall|i: int, j: int| 0 <= i < j < idx.len() implies hwnd_before(ws, #[trigger] idx[i], #[trigger] idx[j]) by {
                if j < p {
                    assert(idx[i] == old_idx[i] && idx[j] == old_idx[j]);
                } else if j == p {
                    assert(idx[i] == old_idx[i]);
                } else if i < p {
                    assert(idx[i] == old_idx[i] && idx[j] == old_idx[j - 1]);
                    assert(hwnd_before(ws, old_idx[p as int], old_idx[j - 1]) || j - 1 == p);
                } else if i == p {
                    assert(idx[j] == old_idx[j - 1]);
                    assert(hwnd_before(ws, old_idx[p as int], old_idx[j - 1]) || j - 1 == p);
                } else {
                    assert(idx[i] == old_idx[i - 1] && idx[j] == old_idx[j - 1]);
                }
            }
            assert forall|j: int| 0 <= j < k + 1 implies #[trigger] idx.contains(j) by {
                if j == k {
                    assert(idx[p as int] == k);
                } else {
                    assert(old_idx.contains(j));
                    let t = choose|t: int| 0 <= t < old_idx.len() && old_idx[t] == j;
                    if t < p {
                        assert(idx[t] == j);
                    } else {
                        assert(idx[t + 1] == j);
                    }
                }
            }
            assert forall|i: int| 0 <= i < idx.len() implies 0 <= #[trigger] idx[i] < k + 1 by {
                if i < p {
                    assert(idx[i] == old_idx[i]);
                } else if i > p {
                    assert(idx[i] == old_idx[i - 1]);
                }
            }
        }
        k = k + 1;
    }
    assert(is_hwnd_order(ws, idx));
    let ghost s = sorted@;
    let mut kept: Vec<Window> = Vec::new();
    let m = sorted.len();
    let mut j: usize = 0;
    assert(s.skip(0) =~= s);
    while j < m
        invariant
            0 <= j <= m,
            m == s.len(),
            sorted@ == s.skip(j as int),
            kept@ == dedup_windows(s.take(j as int)),
        decreases m - j,
    {
        let w = sorted.remove(0);
        assert(w == s[j as int]);
        assert(sorted@ =~= s.skip(j + 1));
        assert(s.take(j + 1).drop_last() =~= s.take(j as int));
        assert(s.take(j + 1).last() == w);
        let drop = kept.len() > 0 && w == kept[kept.len() - 1];
        if !drop {
            kept.push(w);
        }
        j = j + 1;
    }
    assert(s.take(m as int) =~= s);
    kept
}

} // verus!
