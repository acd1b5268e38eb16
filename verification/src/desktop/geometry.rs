//! Where the window goes. Geometry is separate from the data bootstrap:
//! hiding a window must never rewrite the choice of database.
use vstd::prelude::*;

verus! {

#[derive(Clone, Copy, Debug, PartialEq, Eq, Structural)]
pub struct Geometry {
    pub x: i32,
    pub y: i32,
    pub width: u32,
    pub height: u32,
    pub maximized: bool,
}

/// The window's top-left corner lies on screen `s`.
pub open spec fn corner_on(g: Geometry, s: Geometry) -> bool {
    g.x >= s.x && g.y >= s.y && g.x < s.x + s.width && g.y < s.y + s.height
}

/// The first screen at or after `i` that holds the window's corner.
pub open spec fn first_holding(g: Geometry, screens: Seq<Geometry>, i: int) -> Option<int>
    decreases screens.len() - i,
{
    if i < 0 || i >= screens.len() {
        None
    } else if corner_on(g, screens[i]) {
        Some(i)
    } else {
        first_holding(g, screens, i + 1)
    }
}

/// `v` held between `lo` and `hi`.
pub open spec fn clamp(v: int, lo: int, hi: int) -> int {
    if v < lo {
        lo
    } else if v > hi {
        hi
    } else {
        v
    }
}

/// A size no smaller than `least` and no larger than `most`, where `most` wins.
pub open spec fn fit_size(v: u32, least: u32, most: u32) -> u32 {
    let up = if v >= least {
        v
    } else {
        least
    };
    if up <= most {
        up
    } else {
        most
    }
}

/// The window kept whole on the screen that holds its corner, or on the
/// first screen when none does.
pub open spec fn fit_spec(g: Geometry, screens: Seq<Geometry>) -> Option<Geometry> {
    if screens.len() == 0 {
        None
    } else {
        let s = match first_holding(g, screens, 0) {
            Some(i) => screens[i],
            None => screens[0],
        };
        let width = fit_size(g.width, 640, s.width);
        let height = fit_size(g.height, 480, s.height);
        let x = clamp(g.x as int, s.x as int, s.x + (s.width - width));
        let y = clamp(g.y as int, s.y as int, s.y + (s.height - height));
        Some(Geometry { x: x as i32, y: y as i32, width, height, maximized: g.maximized })
    }
}

/// Whatever was saved, the fitted window lies whole on one of the screens,
/// as long as the screens themselves fit the coordinate range, and there is
/// nowhere to put it only when there is no screen at all.
pub proof fn law_fit_stays_on_screen(g: Geometry, screens: Seq<Geometry>)
    requires
        forall|i: int|
            0 <= i < screens.len() ==> #[trigger] screens[i].x + screens[i].width <= i32::MAX
                && screens[i].y + screens[i].height <= i32::MAX,
    ensures
        screens.len() == 0 <==> fit_spec(g, screens) is None,
        fit_spec(g, screens) matches Some(f) ==> exists|i: int|
            0 <= i < screens.len() && #[trigger] screens[i].x <= f.x && f.x + f.width <= screens[i].x
                + screens[i].width && screens[i].y <= f.y && f.y + f.height <= screens[i].y
                + screens[i].height,
{
    if screens.len() > 0 {
        let k = match first_holding(g, screens, 0) {
            Some(i) => i,
            None => 0,
        };
        lemma_first_holding_bounds(g, screens, 0);
        assert(screens[k].x <= fit_spec(g, screens).unwrap().x);
    }
}

proof fn lemma_first_holding_bounds(g: Geometry, screens: Seq<Geometry>, i: int)
    requires
        0 <= i,
    ensures
        first_holding(g, screens, i) matches Some(k) ==> i <= k < screens.len(),
    decreases screens.len() - i,
{
    if i < screens.len() && !corner_on(g, screens[i]) {
        lemma_first_holding_bounds(g, screens, i + 1);
    }
}

impl Geometry {
    /// Keep the full rectangle on a connected monitor. If the saved monitor
    /// went away, use the primary work area. Arithmetic is widened because
    /// this JSON is editable and coordinates may be negative or extreme.
    pub fn fit(self, screens: &[Geometry]) -> (r: Option<Geometry>)
        ensures
            r == fit_spec(self, screens@),
    {
        let n = screens.len();
        if n == 0 {
            return None;
        }
        let mut i: usize = 0;
        let mut found: Option<usize> = None;
        while found.is_none() && i < n
            invariant
                n == screens@.len(),
                i <= n,
                found is None ==> first_holding(self, screens@, 0) == first_holding(self, screens@, i as int),
                found matches Some(k) ==> first_holding(self, screens@, 0) == Some(k as int) && k < n,
            decreases n - i + if found is None { 1int } else { 0int },
        {
            let s = screens[i];
            if (self.x as i64) >= (s.x as i64) && (self.y as i64) >= (s.y as i64) && (self.x as i64)
                < (s.x as i64) + (s.width as i64) && (self.y as i64) < (s.y as i64) + (s.height as i64) {
                assert(corner_on(self, screens@[i as int]));
                assert(first_holding(self, screens@, i as int) == Some(i as int));
                found = Some(i);
            } else {
                i = i + 1;
            }
        }
        let screen = match found {
            Some(k) => screens[k],
            None => screens[0],
        };

        let w0 = if self.width >= 640 {
            self.width
        } else {
            640
        };
        let width = if w0 <= screen.width {
            w0
        } else {
            screen.width
        };
        let h0 = if self.height >= 480 {
            self.height
        } else {
            480
        };
        let height = if h0 <= screen.height {
            h0
        } else {
            screen.height
        };
        let lo_x = screen.x as i64;
        let hi_x = (screen.x as i64) + ((screen.width - width) as i64);
        let x = if (self.x as i64) < lo_x {
            lo_x
        } else if (self.x as i64) > hi_x {
            hi_x
        } else {
            self.x as i64
        };
        let lo_y = screen.y as i64;
        let hi_y = (screen.y as i64) + ((screen.height - height) as i64);
        let y = if (self.y as i64) < lo_y {
            lo_y
        } else if (self.y as i64) > hi_y {
            hi_y
        } else {
            self.y as i64
        };
        Some(Geometry { x: x as i32, y: y as i32, width, height, maximized: self.maximized })
    }
}

/// How a window comes back: where its frame goes, the size of what it
/// shows inside the frame, and the smallest size it may then be given.
#[derive(Clone, Copy, Debug, PartialEq, Eq, Structural)]
pub struct Restore {
    pub frame: Geometry,
    pub inner_width: u32,
    pub inner_height: u32,
    pub min_width: u32,
    pub min_height: u32,
}

/// `a + b`, stopping at the largest `u32`.
pub open spec fn add_sat(a: u32, b: u32) -> u32 {
    if a + b > u32::MAX {
        u32::MAX
    } else {
        (a + b) as u32
    }
}

/// `a - b`, stopping at zero.
pub open spec fn sub_sat(a: u32, b: u32) -> u32 {
    if a >= b {
        (a - b) as u32
    } else {
        0
    }
}

pub open spec fn at_least(a: u32, b: u32) -> u32 {
    if a >= b {
        a
    } else {
        b
    }
}

pub open spec fn at_most(a: u32, b: u32) -> u32 {
    if a <= b {
        a
    } else {
        b
    }
}

/// The saved window, grown to hold the usual minimum inside its frame
/// (`chrome` is what the frame adds to each side's size), fitted to the
/// screens; what it shows inside is the frame less the chrome, never
/// nothing, and a smaller screen may put that below the usual minimum,
/// which then gives way.
pub open spec fn restore_spec(
    saved: Option<Geometry>,
    screens: Seq<Geometry>,
    min_width: u32,
    min_height: u32,
    chrome: (u32, u32),
) -> Option<Restore> {
    match saved {
        None => None,
        Some(g) => {
            let grown = Geometry {
                width: at_least(g.width, add_sat(min_width, chrome.0)),
                height: at_least(g.height, add_sat(min_height, chrome.1)),
                ..g
            };
            match fit_spec(grown, screens) {
                None => None,
                Some(f) => {
                    let inner_width = at_least(sub_sat(f.width, chrome.0), 1);
                    let inner_height = at_least(sub_sat(f.height, chrome.1), 1);
                    Some(
                        Restore {
                            frame: f,
                            inner_width,
                            inner_height,
                            min_width: at_most(min_width, inner_width),
                            min_height: at_most(min_height, inner_height),
                        },
                    )
                },
            }
        },
    }
}

/// Where the saved window `saved` comes back among `screens`, for a window
/// whose usual minimum inside is `min_width` by `min_height` and whose frame
/// adds `chrome`; `None` when nothing was saved or there is no screen, and
/// the window then stays where the system put it.
pub fn restore(
    saved: Option<Geometry>,
    screens: &[Geometry],
    min_width: u32,
    min_height: u32,
    chrome: (u32, u32),
) -> (r: Option<Restore>)
    ensures
        r == restore_spec(saved, screens@, min_width, min_height, chrome),
        r matches Some(w) ==> 1 <= w.inner_width && 1 <= w.inner_height && w.min_width
            <= w.inner_width && w.min_height <= w.inner_height,
{
    let g = match saved {
        None => {
            return None;
        },
        Some(g) => g,
    };
    let want_w = min_width.saturating_add(chrome.0);
    let want_h = min_height.saturating_add(chrome.1);
    let grown = Geometry {
        width: if g.width >= want_w {
            g.width
        } else {
            want_w
        },
        height: if g.height >= want_h {
            g.height
        } else {
            want_h
        },
        ..g
    };
    match grown.fit(screens) {
        None => None,
        Some(f) => {
            let w0 = f.width.saturating_sub(chrome.0);
            let inner_width = if w0 >= 1 {
                w0
            } else {
                1
            };
            let h0 = f.height.saturating_sub(chrome.1);
            let inner_height = if h0 >= 1 {
                h0
            } else {
                1
            };
            Some(
                Restore {
                    frame: f,
                    inner_width,
                    inner_height,
                    min_width: if min_width <= inner_width {
                        min_width
                    } else {
                        inner_width
                    },
                    min_height: if min_height <= inner_height {
                        min_height
                    } else {
                        inner_height
                    },
                },
            )
        },
    }
}

/// A restored window's frame lies whole on one of the screens, and what it
/// shows inside is never smaller than the minimum it is then given.
pub proof fn law_a_restored_window_is_on_a_screen(
    saved: Option<Geometry>,
    screens: Seq<Geometry>,
    min_width: u32,
    min_height: u32,
    chrome: (u32, u32),
)
    requires
        forall|i: int|
            0 <= i < screens.len() ==> #[trigger] screens[i].x + screens[i].width <= i32::MAX
                && screens[i].y + screens[i].height <= i32::MAX,
    ensures
        restore_spec(saved, screens, min_width, min_height, chrome) matches Some(w) ==> (exists|
            i: int,
        |
            0 <= i < screens.len() && #[trigger] screens[i].x <= w.frame.x && w.frame.x
                + w.frame.width <= screens[i].x + screens[i].width && screens[i].y <= w.frame.y
                && w.frame.y + w.frame.height <= screens[i].y + screens[i].height) && w.min_width
            <= w.inner_width && w.min_height <= w.inner_height,
{
    if let Some(g) = saved {
        let grown = Geometry {
            width: at_least(g.width, add_sat(min_width, chrome.0)),
            height: at_least(g.height, add_sat(min_height, chrome.1)),
            ..g
        };
        law_fit_stays_on_screen(grown, screens);
    }
}

} // verus!
