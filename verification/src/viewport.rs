//! The interactive viewport: pan offset, cursor-anchored zoom, pointer state
//! machine, hit testing over projected node locations, and the draw-primitive
//! output consumed by a toolkit-specific renderer.
use vstd::prelude::*;

use crate::Message;
use crate::graph::CommitGraph;
use crate::layout::NODE_RADIUS;
use crate::rat::Frac;
use crate::rat::Rat;
use crate::rat::iabs;
use crate::rat::lemma_abs_mul;
use crate::rat::lemma_add_congr;
use crate::rat::lemma_div_congr;
use crate::rat::lemma_lt_congr;
use crate::rat::lemma_mul_congr;
use crate::rat::lemma_mul_pos;
use crate::rat::lemma_rat_trans;
use crate::rat::lemma_sub_congr;
use crate::rat::rat;
use crate::rat::rat_add;
use crate::rat::rat_div;
use crate::rat::rat_eq;
use crate::rat::rat_half;
use crate::rat::rat_lt;
use crate::rat::rat_mul;
use crate::rat::rat_sub;

verus! {

/// A 2D point or vector with exact rational coordinates.
#[derive(Clone, Copy, Debug)]
pub struct Vec2 {
    /// Horizontal coordinate.
    pub x: Frac,
    /// Vertical coordinate.
    pub y: Frac,
}

impl Vec2 {
    /// Both coordinates are well-formed fractions.
    pub open spec fn wf(self) -> bool {
        self.x.wf() && self.y.wf()
    }
}

/// The canvas rectangle in screen coordinates.
#[derive(Clone, Copy, Debug)]
pub struct Bounds {
    /// Left edge.
    pub x: Frac,
    /// Top edge.
    pub y: Frac,
    /// Width.
    pub width: Frac,
    /// Height.
    pub height: Frac,
}

impl Bounds {
    /// All edges are well-formed fractions.
    pub open spec fn wf(self) -> bool {
        self.x.wf() && self.y.wf() && self.width.wf() && self.height.wf()
    }
}

/// A commit id together with its graph-space location.
pub struct NodeLocation {
    /// The commit id this location belongs to.
    pub id: String,
    /// Graph-space x coordinate.
    pub x: Frac,
    /// Graph-space y coordinate.
    pub y: Frac,
}

impl NodeLocation {
    /// Both coordinates are well-formed fractions.
    pub open spec fn wf(self) -> bool {
        self.x.wf() && self.y.wf()
    }
}

/// Mouse buttons the state machine distinguishes.
#[derive(Clone, Copy, Debug, PartialEq, Eq, Structural)]
pub enum MouseButton {
    Left,
    Right,
    Middle,
    Other,
}

/// Wheel scroll payloads: only line-based deltas drive the zoom.
pub enum ScrollDelta {
    Lines { y: Frac },
    Pixels,
}

/// Input events consumed by the viewport state machine.
pub enum CanvasEvent {
    ButtonPressed(MouseButton),
    ButtonReleased(MouseButton),
    CursorMoved { position: Vec2 },
    WheelScrolled { delta: ScrollDelta },
    Other,
}

/// Whether an event was consumed or reported back as unconsumed.
#[derive(Clone, Copy, Debug, PartialEq, Eq, Structural)]
pub enum EventStatus {
    Captured,
    Ignored,
}

/// Screen position of a graph-space x (or y) coordinate:
/// `zoom * (g + offset) + extent / 2`.
pub open spec fn spec_project_x(gx: Rat, offx: Rat, zoom: Rat, extent: Rat) -> Rat {
    rat_add(rat_mul(zoom, rat_add(gx, offx)), rat_half(extent))
}

/// Graph-space position of a screen x (or y) coordinate:
/// `(s - extent / 2) / zoom - offset`.
pub open spec fn spec_unproject_x(sx: Rat, offx: Rat, zoom: Rat, extent: Rat) -> Rat {
    rat_sub(rat_div(rat_sub(sx, rat_half(extent)), zoom), offx)
}


/// Projecting a screen point to graph space and back under one unchanged
/// viewport returns the same screen point exactly.
pub proof fn lemma_screen_round_trip(s: Rat, off: Rat, z: Rat, e: Rat)
    requires
        z.n != 0,
    ensures
        rat_eq(spec_project_x(spec_unproject_x(s, off, z, e), off, z, e), s),
{
    let h = rat_half(e);
    let c = rat_sub(s, h);
    let q = rat_div(c, z);
    let u = rat_sub(q, off);
    let t = rat_add(u, off);
    let m = rat_mul(z, t);
    let p = rat_add(m, h);
    let ghost ff: int = off.d * off.d;
    let ghost ee: int = e.d * 2;
    let ghost ww: int = z.n * z.d * ff;
    assert(p == spec_project_x(spec_unproject_x(s, off, z, e), off, z, e));
    assert(t.n == q.n * ff) by (nonlinear_arith)
        requires
            t.n == (q.n * off.d - off.n * q.d) * off.d + off.n * (q.d * off.d),
            ff == off.d * off.d,
    ;
    assert(t.d == q.d * ff) by (nonlinear_arith)
        requires
            t.d == (q.d * off.d) * off.d,
            ff == off.d * off.d,
    ;
    assert(m.n == z.n * (q.n * ff));
    assert(m.d == z.d * (q.d * ff));
    assert(p.n == z.n * (q.n * ff) * ee + e.n * (z.d * (q.d * ff)));
    assert(p.d == z.d * (q.d * ff) * ee);
    assert(c.n * ee + e.n * c.d == s.n * (ee * ee)) by (nonlinear_arith)
        requires
            c.n == s.n * ee - e.n * s.d,
            c.d == s.d * ee,
            ee == e.d * 2,
    ;
    if z.n >= 0 {
        assert(q.n == c.n * z.d && q.d == c.d * z.n);
        assert(z.n * ((c.n * z.d) * ff) * ee == ((z.n * z.d) * ff) * (c.n * ee))
            by (nonlinear_arith);
        assert(z.n * (q.n * ff) * ee == ww * (c.n * ee));
        assert(z.d * ((c.d * z.n) * ff) == ((z.n * z.d) * ff) * c.d) by (nonlinear_arith);
        assert(z.d * (q.d * ff) == ww * c.d);
        assert(p.n == ww * (c.n * ee) + e.n * (ww * c.d));
        assert(z.d * ((c.d * z.n) * ff) * ee == ((z.n * z.d) * ff) * (c.d * ee))
            by (nonlinear_arith);
        assert(p.d == ww * (c.d * ee));
        assert(p.n == ww * (s.n * (ee * ee))) by (nonlinear_arith)
            requires
                p.n == ww * (c.n * ee) + e.n * (ww * c.d),
                c.n * ee + e.n * c.d == s.n * (ee * ee),
        ;
        assert(p.d == ww * (s.d * (ee * ee))) by (nonlinear_arith)
            requires
                p.d == ww * (c.d * ee),
                c.d == s.d * ee,
        ;
        assert(p.n * s.d == s.n * p.d) by (nonlinear_arith)
            requires
                p.n == ww * (s.n * (ee * ee)),
                p.d == ww * (s.d * (ee * ee)),
        ;
    } else {
        assert(q.n == -(c.n * z.d) && q.d == c.d * (-z.n));
        assert(z.n * ((-(c.n * z.d)) * ff) * ee == -(((z.n * z.d) * ff) * (c.n * ee)))
            by (nonlinear_arith);
        assert(z.n * (q.n * ff) * ee == -(ww * (c.n * ee)));
        assert(z.d * ((c.d * (-z.n)) * ff) == -(((z.n * z.d) * ff) * c.d)) by (nonlinear_arith);
        assert(z.d * (q.d * ff) == -(ww * c.d));
        assert(e.n * (-(ww * c.d)) == -(e.n * (ww * c.d))) by (nonlinear_arith);
        assert(p.n == -(ww * (c.n * ee) + e.n * (ww * c.d)));
        assert(z.d * ((c.d * (-z.n)) * ff) * ee == -(((z.n * z.d) * ff) * (c.d * ee)))
            by (nonlinear_arith);
        assert(p.d == -(ww * (c.d * ee)));
        assert(p.n == -(ww * (s.n * (ee * ee)))) by (nonlinear_arith)
            requires
                p.n == -(ww * (c.n * ee) + e.n * (ww * c.d)),
                c.n * ee + e.n * c.d == s.n * (ee * ee),
        ;
        assert(p.d == -(ww * (s.d * (ee * ee)))) by (nonlinear_arith)
            requires
                p.d == -(ww * (c.d * ee)),
                c.d == s.d * ee,
        ;
        assert(p.n * s.d == s.n * p.d) by (nonlinear_arith)
            requires
                p.n == -(ww * (s.n * (ee * ee))),
                p.d == -(ww * (s.d * (ee * ee))),
        ;
    }
}


/// Multiplying by one half is the same rational as halving the denominator.
pub proof fn lemma_half_mul(e: Rat)
    ensures
        rat_mul(e, rat(1, 2)) == rat_half(e),
{
    assert(e.n * 1 == e.n) by (nonlinear_arith);
}


/// A screen-sized integer coordinate: at most 4096 in magnitude, denominator
/// one. Under such inputs the exact-arithmetic event handlers are guaranteed
/// to consume the event.
pub open spec fn pixel_like(f: Frac) -> bool {
    -4096 <= f.num <= 4096 && f.den == 1
}

/// A zoom factor with modest components (it always holds of a fresh view and
/// of small zoom steps).
pub open spec fn zoom_like(f: Frac) -> bool {
    1 <= f.num <= 64 && 1 <= f.den <= 32
}

/// Both coordinates screen-sized integers.
pub open spec fn calm_vec2(v: Vec2) -> bool {
    pixel_like(v.x) && pixel_like(v.y)
}

/// A viewport state whose components are small enough that every event is
/// guaranteed to stay within the representable numeric range.
pub open spec fn calm_state(st: ViewportState) -> bool {
    calm_vec2(st.mouse_location) && calm_vec2(st.offset) && calm_vec2(st.offset_start)
        && calm_vec2(st.dragging_start) && zoom_like(st.zoom)
}

/// A canvas rectangle with screen-sized integer edges.
pub open spec fn calm_bounds(b: Bounds) -> bool {
    pixel_like(b.x) && pixel_like(b.y) && pixel_like(b.width) && pixel_like(b.height)
}

/// Every node location is a screen-sized integer point.
pub open spec fn calm_locations(l: Seq<NodeLocation>) -> bool {
    forall|i: int| 0 <= i < l.len() ==> pixel_like((#[trigger] l[i]).x) && pixel_like(l[i].y)
}

/// The unclamped zoom target of one wheel notch: `zoom * (1 + 0.15 * lines)`.
pub open spec fn spec_zoom_target(oz: Rat, y: Rat) -> Rat {
    rat_mul(oz, rat_add(rat(1, 1), rat_mul(y, rat(3, 20))))
}

/// `nz` is the wheel's zoom target clamped into `[1/1000, 4]`.
pub open spec fn zoom_clamped_to(oz: Rat, y: Rat, nz: Rat) -> bool {
    let zt = spec_zoom_target(oz, y);
    if rat_lt(zt, rat(1, 1000)) {
        nz == rat(1, 1000)
    } else if rat_lt(rat(4, 1), zt) {
        nz == rat(4, 1)
    } else {
        rat_eq(nz, zt)
    }
}

/// The cursor-anchored offset correction of one axis: the offset moves by the
/// screen displacement of the graph point under the cursor, divided by the
/// new zoom.
pub open spec fn spec_wheel_offset(s: Rat, off: Rat, e: Rat, oz: Rat, nz: Rat) -> Rat {
    let g = spec_unproject_x(s, off, oz, e);
    rat_sub(off, rat_div(rat_sub(spec_project_x(g, off, nz, e), spec_project_x(g, off, oz, e)), nz))
}

/// The dragged pan of one axis: `offset_start + (pointer - drag_start) / zoom`.
pub open spec fn spec_pan_offset(pos: Rat, border: Rat, ds: Rat, z: Rat, os: Rat) -> Rat {
    rat_add(os, rat_div(rat_sub(rat_sub(pos, border), ds), z))
}

/// Whether the pointer lies strictly within `NODE_RADIUS * zoom` (Euclidean)
/// of the node's projected center.
pub open spec fn spec_hit(loc: NodeLocation, st: ViewportState, bounds: Bounds) -> bool {
    let sx = spec_project_x(loc.x@, st.offset.x@, st.zoom@, bounds.width@);
    let sy = spec_project_x(loc.y@, st.offset.y@, st.zoom@, bounds.height@);
    let dx = rat_sub(st.mouse_location.x@, sx);
    let dy = rat_sub(st.mouse_location.y@, sy);
    let rr = rat_mul(rat(NODE_RADIUS as int, 1), st.zoom@);
    rat_lt(rat_add(rat_mul(dx, dx), rat_mul(dy, dy)), rat_mul(rr, rr))
}

/// Denominator positivity of a projected coordinate and its subterms.
pub proof fn lemma_project_pos(g: Rat, off: Rat, z: Rat, e: Rat)
    requires
        g.d >= 1,
        off.d >= 1,
        z.d >= 1,
        e.d >= 1,
    ensures
        rat_add(g, off).d >= 1,
        rat_mul(z, rat_add(g, off)).d >= 1,
        spec_project_x(g, off, z, e).d >= 1,
{
    lemma_mul_pos(g.d, off.d);
    lemma_mul_pos(z.d, g.d * off.d);
    lemma_mul_pos(z.d * (g.d * off.d), e.d * 2);
}

/// Denominator positivity of an unprojected coordinate and its subterms.
pub proof fn lemma_unproject_pos(s: Rat, off: Rat, z: Rat, e: Rat)
    requires
        s.d >= 1,
        off.d >= 1,
        e.d >= 1,
        z.n != 0,
    ensures
        rat_sub(s, rat_half(e)).d >= 1,
        rat_div(rat_sub(s, rat_half(e)), z).d >= 1,
        spec_unproject_x(s, off, z, e).d >= 1,
{
    let c = rat_sub(s, rat_half(e));
    lemma_mul_pos(s.d, e.d * 2);
    if z.n > 0 {
        lemma_mul_pos(c.d, z.n);
        lemma_mul_pos(c.d * z.n, off.d);
    } else {
        lemma_mul_pos(c.d, -z.n);
        lemma_mul_pos(c.d * (-z.n), off.d);
    }
}

/// Pan offset, zoom factor, pointer position and drag anchor of one view.
pub struct ViewportState {
    /// Last seen pointer position, in canvas-local screen coordinates.
    pub mouse_location: Vec2,
    /// Whether a drag is in progress.
    pub dragging: bool,
    /// Pan offset captured when the current drag started.
    pub offset_start: Vec2,
    /// Pointer position captured when the current drag started.
    pub dragging_start: Vec2,
    /// Current pan offset, in graph-space units.
    pub offset: Vec2,
    /// Current zoom factor, clamped to a positive range.
    pub zoom: Frac,
}

/// A fraction that is exactly zero, in lowest terms.
pub open spec fn zero_frac(f: Frac) -> bool {
    f.num == 0 && f.den == 1
}

/// A point with both coordinates exactly zero.
pub open spec fn zero_vec2(v: Vec2) -> bool {
    zero_frac(v.x) && zero_frac(v.y)
}

impl ViewportState {
    /// All fields well formed and the zoom strictly positive.
    pub open spec fn wf(self) -> bool {
        self.mouse_location.wf() && self.offset_start.wf() && self.dragging_start.wf()
            && self.offset.wf() && self.zoom.wf() && self.zoom.pos()
    }

    /// Fresh state: pointer, offset and both drag anchors at the origin,
    /// zoom one, not dragging.
    pub fn new() -> (r: ViewportState)
        ensures
            r.wf(),
            !r.dragging,
            r.zoom.num == 1 && r.zoom.den == 1,
            zero_vec2(r.mouse_location),
            zero_vec2(r.offset),
            zero_vec2(r.offset_start),
            zero_vec2(r.dragging_start),
            calm_state(r),
    {
        let zero = Vec2 { x: Frac { num: 0, den: 1 }, y: Frac { num: 0, den: 1 } };
        ViewportState {
            mouse_location: zero,
            dragging: false,
            offset_start: zero,
            dragging_start: zero,
            offset: zero,
            zoom: Frac { num: 1, den: 1 },
        }
    }
}

impl Default for ViewportState {
    /// Same state as `ViewportState::new`.
    fn default() -> (r: ViewportState)
        ensures
            r.wf(),
            !r.dragging,
            r.zoom.num == 1 && r.zoom.den == 1,
            zero_vec2(r.mouse_location),
            zero_vec2(r.offset),
            zero_vec2(r.offset_start),
            zero_vec2(r.dragging_start),
    {
        ViewportState::new()
    }
}

/// One projected axis: `zoom * (g + off) + extent / 2`, or `None` when the
/// exact result leaves the representable range. Under screen-sized inputs it
/// always succeeds, with small components.
pub fn project_axis(g: Frac, off: Frac, zoom: Frac, extent: Frac) -> (r: Option<Frac>)
    requires
        g.wf(),
        off.wf(),
        zoom.wf(),
        extent.wf(),
    ensures
        match r {
            Some(p) => p.wf() && rat_eq(p@, spec_project_x(g@, off@, zoom@, extent@)),
            None => true,
        },
        pixel_like(g) && pixel_like(off) && zoom_like(zoom) && pixel_like(extent) ==> match r {
            Some(p) => -0x20_0000 <= p.num <= 0x20_0000 && 1 <= p.den <= 0x40,
            None => false,
        },
{
    let ghost cl = pixel_like(g) && pixel_like(off) && zoom_like(zoom) && pixel_like(extent);
    let half = Frac { num: 1, den: 2 };
    proof {
        if cl {
            lemma_abs_mul(g@.n, off@.d, 0x1000, 1);
            lemma_abs_mul(off@.n, g@.d, 0x1000, 1);
            lemma_abs_mul(g@.d, off@.d, 1, 1);
            assert(-0x2000 <= g@.n * off@.d + off@.n * g@.d <= 0x2000);
            assert(rat_add(g@, off@).n == g@.n * off@.d + off@.n * g@.d);
            assert(iabs(rat_add(g@, off@).n) <= 0x2000);
            assert(g@.d * off@.d <= 1) by (nonlinear_arith)
                requires
                    g@.d == 1,
                    off@.d == 1,
            ;
        }
    }
    let t = match g.try_add(off) {
        Some(v) => v,
        None => {
            proof {
                if cl {
                    assert(false);
                }
            }
            return None;
        },
    };
    proof {
        if cl {
            assert(-0x2000 <= t.num <= 0x2000 && 1 <= t.den <= 1);
            lemma_abs_mul(zoom@.n, t@.n, 0x40, 0x2000);
            lemma_abs_mul(zoom@.d, t@.d, 0x20, 1);
            assert(iabs(rat_mul(zoom@, t@).n) <= 0x8_0000 && zoom@.d * t@.d <= 0x20);
        }
    }
    let m = match zoom.try_mul(t) {
        Some(v) => v,
        None => {
            proof {
                if cl {
                    assert(false);
                }
            }
            return None;
        },
    };
    proof {
        lemma_mul_pos(zoom@.d, t@.d);
        lemma_mul_congr(zoom@, zoom@, t@, rat_add(g@, off@));
        lemma_rat_trans(m@, rat_mul(zoom@, t@), rat_mul(zoom@, rat_add(g@, off@)));
        if cl {
            assert(-0x8_0000 <= m.num <= 0x8_0000 && 1 <= m.den <= 0x20);
            lemma_abs_mul(extent@.n, half@.n, 0x1000, 1);
            assert(extent@.d * half@.d <= 2) by (nonlinear_arith)
                requires
                    extent@.d == 1,
                    half@.d == 2,
            ;
            assert(iabs(rat_mul(extent@, half@).n) <= 0x1000);
        }
    }
    let h = match extent.try_mul(half) {
        Some(v) => v,
        None => {
            proof {
                if cl {
                    assert(false);
                }
            }
            return None;
        },
    };
    proof {
        assert(half@ == rat(1, 2));
        lemma_mul_pos(extent@.d, half@.d);
        lemma_mul_congr(extent@, extent@, half@, rat(1, 2));
        lemma_rat_trans(h@, rat_mul(extent@, half@), rat_mul(extent@, rat(1, 2)));
        lemma_half_mul(extent@);
        assert(rat_eq(h@, rat_half(extent@)));
        if cl {
            assert(-0x1000 <= h.num <= 0x1000 && 1 <= h.den <= 2);
            lemma_abs_mul(m@.n, h@.d, 0x8_0000, 2);
            lemma_abs_mul(h@.n, m@.d, 0x1000, 0x20);
            lemma_abs_mul(m@.d, h@.d, 0x20, 2);
            assert(iabs(rat_add(m@, h@).n) <= 0x20_0000 && m@.d * h@.d <= 0x40);
        }
    }
    let p = match m.try_add(h) {
        Some(v) => v,
        None => {
            proof {
                if cl {
                    assert(false);
                }
            }
            return None;
        },
    };
    proof {
        lemma_mul_pos(m@.d, h@.d);
        lemma_add_congr(m@, rat_mul(zoom@, rat_add(g@, off@)), h@, rat_half(extent@));
        lemma_rat_trans(p@, rat_add(m@, h@), spec_project_x(g@, off@, zoom@, extent@));
        if cl {
            assert(-0x20_0000 <= p.num <= 0x20_0000 && 1 <= p.den <= 0x40);
        }
    }
    Some(p)
}

/// Screen position of a graph-space point under the current pan and zoom,
/// or `None` when the exact arithmetic leaves the representable range; it
/// always succeeds on screen-sized inputs.
pub fn adjust_position_for_view(position: &Vec2, bounds: &Bounds, state: &ViewportState) -> (r:
    Option<Vec2>)
    requires
        position.wf(),
        bounds.wf(),
        state.wf(),
    ensures
        match r {
            Some(p) => p.wf() && rat_eq(
                p.x@,
                spec_project_x(position.x@, state.offset.x@, state.zoom@, bounds.width@),
            ) && rat_eq(
                p.y@,
                spec_project_x(position.y@, state.offset.y@, state.zoom@, bounds.height@),
            ),
            None => true,
        },
        calm_vec2(*position) && calm_bounds(*bounds) && calm_state(*state) ==> r is Some,
{
    let px = match project_axis(position.x, state.offset.x, state.zoom, bounds.width) {
        Some(v) => v,
        None => {
            return None;
        },
    };
    let py = match project_axis(position.y, state.offset.y, state.zoom, bounds.height) {
        Some(v) => v,
        None => {
            return None;
        },
    };
    Some(Vec2 { x: px, y: py })
}

/// Whether the pointer currently falls within the node's selectable radius,
/// decided exactly; `None` when the arithmetic leaves the representable
/// range (never on screen-sized inputs).
pub fn hit_node(loc: &NodeLocation, state: &ViewportState, bounds: &Bounds) -> (r: Option<bool>)
    requires
        loc.wf(),
        state.wf(),
        bounds.wf(),
    ensures
        match r {
            Some(b) => b == spec_hit(*loc, *state, *bounds),
            None => true,
        },
        pixel_like(loc.x) && pixel_like(loc.y) && calm_state(*state) && calm_bounds(*bounds)
            ==> r is Some,
{
    let ghost cl = pixel_like(loc.x) && pixel_like(loc.y) && calm_state(*state) && calm_bounds(
        *bounds,
    );
    let ghost tsx = spec_project_x(loc.x@, state.offset.x@, state.zoom@, bounds.width@);
    let ghost tsy = spec_project_x(loc.y@, state.offset.y@, state.zoom@, bounds.height@);
    let sx = match project_axis(loc.x, state.offset.x, state.zoom, bounds.width) {
        Some(v) => v,
        None => {
            proof {
                if cl {
                    assert(false);
                }
            }
            return None;
        },
    };
    let sy = match project_axis(loc.y, state.offset.y, state.zoom, bounds.height) {
        Some(v) => v,
        None => {
            proof {
                if cl {
                    assert(false);
                }
            }
            return None;
        },
    };
    proof {
        if cl {
            lemma_abs_mul(state.mouse_location.x@.n, sx@.d, 0x1000, 0x40);
            lemma_abs_mul(sx@.n, state.mouse_location.x@.d, 0x20_0000, 1);
            lemma_abs_mul(state.mouse_location.x@.d, sx@.d, 1, 0x40);
            assert(iabs(rat_sub(state.mouse_location.x@, sx@).n) <= 0x40_0000
                && state.mouse_location.x@.d * sx@.d <= 0x40);
        }
    }
    let dx = match state.mouse_location.x.try_sub(sx) {
        Some(v) => v,
        None => {
            proof {
                if cl {
                    assert(false);
                }
            }
            return None;
        },
    };
    proof {
        if cl {
            lemma_abs_mul(state.mouse_location.y@.n, sy@.d, 0x1000, 0x40);
            lemma_abs_mul(sy@.n, state.mouse_location.y@.d, 0x20_0000, 1);
            lemma_abs_mul(state.mouse_location.y@.d, sy@.d, 1, 0x40);
            assert(iabs(rat_sub(state.mouse_location.y@, sy@).n) <= 0x40_0000
                && state.mouse_location.y@.d * sy@.d <= 0x40);
        }
    }
    let dy = match state.mouse_location.y.try_sub(sy) {
        Some(v) => v,
        None => {
            proof {
                if cl {
                    assert(false);
                }
            }
            return None;
        },
    };
    proof {
        if cl {
            assert(-0x40_0000 <= dx.num <= 0x40_0000 && 1 <= dx.den <= 0x40);
            assert(-0x40_0000 <= dy.num <= 0x40_0000 && 1 <= dy.den <= 0x40);
            lemma_abs_mul(dx@.n, dx@.n, 0x40_0000, 0x40_0000);
            lemma_abs_mul(dx@.d, dx@.d, 0x40, 0x40);
            assert(iabs(rat_mul(dx@, dx@).n) <= 0x1000_0000_0000 && dx@.d * dx@.d <= 0x1000);
        }
    }
    let dx2 = match dx.try_mul(dx) {
        Some(v) => v,
        None => {
            proof {
                if cl {
                    assert(false);
                }
            }
            return None;
        },
    };
    proof {
        if cl {
            lemma_abs_mul(dy@.n, dy@.n, 0x40_0000, 0x40_0000);
            lemma_abs_mul(dy@.d, dy@.d, 0x40, 0x40);
            assert(iabs(rat_mul(dy@, dy@).n) <= 0x1000_0000_0000 && dy@.d * dy@.d <= 0x1000);
        }
    }
    let dy2 = match dy.try_mul(dy) {
        Some(v) => v,
        None => {
            proof {
                if cl {
                    assert(false);
                }
            }
            return None;
        },
    };
    proof {
        if cl {
            assert(-0x1000_0000_0000 <= dx2.num <= 0x1000_0000_0000 && 1 <= dx2.den
                <= 0x1000);
            assert(-0x1000_0000_0000 <= dy2.num <= 0x1000_0000_0000 && 1 <= dy2.den
                <= 0x1000);
            lemma_abs_mul(dx2@.n, dy2@.d, 0x1000_0000_0000, 0x1000);
            lemma_abs_mul(dy2@.n, dx2@.d, 0x1000_0000_0000, 0x1000);
            lemma_abs_mul(dx2@.d, dy2@.d, 0x1000, 0x1000);
            assert(iabs(rat_add(dx2@, dy2@).n) <= 0x200_0000_0000_0000 && dx2@.d * dy2@.d
                <= 0x100_0000);
        }
    }
    let dist2 = match dx2.try_add(dy2) {
        Some(v) => v,
        None => {
            proof {
                if cl {
                    assert(false);
                }
            }
            return None;
        },
    };
    let fifty = Frac { num: 50, den: 1 };
    proof {
        if cl {
            lemma_abs_mul(fifty@.n, state.zoom@.n, 50, 0x40);
            lemma_abs_mul(fifty@.d, state.zoom@.d, 1, 0x20);
            assert(iabs(rat_mul(fifty@, state.zoom@).n) <= 3200 && fifty@.d * state.zoom@.d
                <= 0x20);
        }
    }
    let rr = match fifty.try_mul(state.zoom) {
        Some(v) => v,
        None => {
            proof {
                if cl {
                    assert(false);
                }
            }
            return None;
        },
    };
    proof {
        if cl {
            assert(-3200 <= rr.num <= 3200 && 1 <= rr.den <= 0x20);
            lemma_abs_mul(rr@.n, rr@.n, 3200, 3200);
            lemma_abs_mul(rr@.d, rr@.d, 0x20, 0x20);
            assert(iabs(rat_mul(rr@, rr@).n) <= 0xa0_0000 && rr@.d * rr@.d <= 0x400);
        }
    }
    let rr2 = match rr.try_mul(rr) {
        Some(v) => v,
        None => {
            proof {
                if cl {
                    assert(false);
                }
            }
            return None;
        },
    };
    let hit = dist2.lt(rr2);
    proof {
        let tdx = rat_sub(state.mouse_location.x@, tsx);
        let tdy = rat_sub(state.mouse_location.y@, tsy);
        let trr = rat_mul(rat(NODE_RADIUS as int, 1), state.zoom@);
        lemma_project_pos(loc.x@, state.offset.x@, state.zoom@, bounds.width@);
        lemma_project_pos(loc.y@, state.offset.y@, state.zoom@, bounds.height@);
        lemma_mul_pos(state.mouse_location.x@.d, tsx.d);
        lemma_mul_pos(state.mouse_location.y@.d, tsy.d);
        lemma_mul_pos(state.mouse_location.x@.d, sx@.d);
        lemma_mul_pos(state.mouse_location.y@.d, sy@.d);
        lemma_sub_congr(state.mouse_location.x@, state.mouse_location.x@, sx@, tsx);
        lemma_rat_trans(dx@, rat_sub(state.mouse_location.x@, sx@), tdx);
        lemma_sub_congr(state.mouse_location.y@, state.mouse_location.y@, sy@, tsy);
        lemma_rat_trans(dy@, rat_sub(state.mouse_location.y@, sy@), tdy);
        lemma_mul_pos(dx@.d, dx@.d);
        lemma_mul_pos(dy@.d, dy@.d);
        lemma_mul_congr(dx@, tdx, dx@, tdx);
        lemma_rat_trans(dx2@, rat_mul(dx@, dx@), rat_mul(tdx, tdx));
        lemma_mul_congr(dy@, tdy, dy@, tdy);
        lemma_rat_trans(dy2@, rat_mul(dy@, dy@), rat_mul(tdy, tdy));
        lemma_mul_pos(dx2@.d, dy2@.d);
        lemma_add_congr(dx2@, rat_mul(tdx, tdx), dy2@, rat_mul(tdy, tdy));
        lemma_rat_trans(
            dist2@,
            rat_add(dx2@, dy2@),
            rat_add(rat_mul(tdx, tdx), rat_mul(tdy, tdy)),
        );
        assert(fifty@ == rat(NODE_RADIUS as int, 1));
        lemma_mul_pos(fifty@.d, state.zoom@.d);
        lemma_mul_congr(fifty@, rat(NODE_RADIUS as int, 1), state.zoom@, state.zoom@);
        lemma_rat_trans(rr@, rat_mul(fifty@, state.zoom@), trr);
        lemma_mul_pos(rr@.d, rr@.d);
        lemma_mul_congr(rr@, trr, rr@, trr);
        lemma_rat_trans(rr2@, rat_mul(rr@, rr@), rat_mul(trr, trr));
        // denominators of the composed targets are positive
        lemma_mul_pos(tdx.d, tdx.d);
        lemma_mul_pos(tdy.d, tdy.d);
        lemma_mul_pos(tdx.d * tdx.d, tdy.d * tdy.d);
        lemma_mul_pos(trr.d, trr.d);
        lemma_mul_pos(dist2@.d, 1);
        lemma_lt_congr(
            dist2@,
            rat_add(rat_mul(tdx, tdx), rat_mul(tdy, tdy)),
            rr2@,
            rat_mul(trr, trr),
        );
    }
    Some(hit)
}


/// Outcome of a left press over the canvas: the first hit node is selected
/// and nothing else changes; a miss clears the selection and starts a drag;
/// out-of-range arithmetic (never on calm inputs) leaves the event
/// unconsumed and the state untouched.
pub open spec fn press_post(
    o: ViewportState,
    n: ViewportState,
    button: MouseButton,
    bounds: Bounds,
    locs: Seq<NodeLocation>,
    r: (EventStatus, Option<Message>),
) -> bool {
    &&& (button == MouseButton::Left && calm_state(o) && calm_bounds(bounds) && calm_locations(
        locs,
    ) ==> r.0 == EventStatus::Captured)
    &&& if button != MouseButton::Left {
        n == o && r.0 == EventStatus::Ignored && r.1 is None
    } else if !rat_lt(rat(0, 1), o.mouse_location.y@) {
        n == o && r.0 == EventStatus::Captured && r.1 is None
    } else {
        match r.1 {
            Some(Message::SelectCommit(id)) => r.0 == EventStatus::Captured && n == o && (exists|
                i: int,
            |
                0 <= i < locs.len() && #[trigger] spec_hit(locs[i], o, bounds) && id@ == locs[i].id@
                    && (forall|j: int| 0 <= j < i ==> !spec_hit(locs[j], o, bounds))),
            Some(Message::UnselectCommit) => r.0 == EventStatus::Captured && (forall|i: int|
                0 <= i < locs.len() ==> !(#[trigger] spec_hit(locs[i], o, bounds))) && n.dragging
                && n.dragging_start == o.mouse_location && n.offset_start == o.offset
                && n.mouse_location == o.mouse_location && n.offset == o.offset && n.zoom == o.zoom,
            None => r.0 == EventStatus::Ignored && n == o,
            _ => false,
        }
    }
}

/// Outcome of a pointer move: the pointer always tracks the canvas-local
/// position; while dragging, the offset is exactly
/// `offset_start + (pointer - drag_start) / zoom`. Out-of-range arithmetic
/// (never on calm inputs) leaves the event unconsumed.
pub open spec fn move_post(
    o: ViewportState,
    n: ViewportState,
    position: Vec2,
    bounds: Bounds,
    r: (EventStatus, Option<Message>),
) -> bool {
    &&& r.1 is None
    &&& (calm_state(o) && calm_bounds(bounds) && calm_vec2(position) ==> r.0
        == EventStatus::Captured)
    &&& if r.0 == EventStatus::Ignored {
        n == o
    } else {
        &&& rat_eq(n.mouse_location.x@, rat_sub(position.x@, bounds.x@))
        &&& rat_eq(n.mouse_location.y@, rat_sub(position.y@, bounds.y@))
        &&& n.dragging == o.dragging
        &&& n.offset_start == o.offset_start
        &&& n.dragging_start == o.dragging_start
        &&& n.zoom == o.zoom
        &&& !o.dragging ==> n.offset == o.offset
        &&& o.dragging ==> rat_eq(
            n.offset.x@,
            spec_pan_offset(position.x@, bounds.x@, o.dragging_start.x@, o.zoom@, o.offset_start.x@),
        ) && rat_eq(
            n.offset.y@,
            spec_pan_offset(position.y@, bounds.y@, o.dragging_start.y@, o.zoom@, o.offset_start.y@),
        )
    }
}

/// A wheel delta of full lines with a small magnitude.
pub open spec fn wheel_like(f: Frac) -> bool {
    -16 <= f.num <= 16 && f.den == 1
}

/// Outcome of a wheel event: a no-op while dragging and for pixel deltas;
/// otherwise the zoom is scaled by `1 + 0.15 * lines` and clamped into
/// `[1/1000, 4]`, and each offset axis is corrected by exactly the formula
/// that keeps the graph point under the cursor fixed. Out-of-range
/// arithmetic (never on calm inputs) leaves the event unconsumed.
pub open spec fn wheel_post(
    o: ViewportState,
    n: ViewportState,
    delta: ScrollDelta,
    bounds: Bounds,
    r: (EventStatus, Option<Message>),
) -> bool {
    &&& r.1 is None
    &&& if o.dragging {
        n == o && r.0 == EventStatus::Captured
    } else {
        match delta {
            ScrollDelta::Pixels => n == o && r.0 == EventStatus::Captured,
            ScrollDelta::Lines { y } => {
                &&& (calm_state(o) && calm_bounds(bounds) && wheel_like(y) ==> r.0
                    == EventStatus::Captured)
                &&& if r.0 == EventStatus::Ignored {
                    n == o
                } else {
                    &&& n.mouse_location == o.mouse_location
                    &&& n.dragging == o.dragging
                    &&& n.offset_start == o.offset_start
                    &&& n.dragging_start == o.dragging_start
                    &&& zoom_clamped_to(o.zoom@, y@, n.zoom@)
                    &&& rat_eq(
                        n.offset.x@,
                        spec_wheel_offset(
                            o.mouse_location.x@,
                            o.offset.x@,
                            bounds.width@,
                            o.zoom@,
                            n.zoom@,
                        ),
                    )
                    &&& rat_eq(
                        n.offset.y@,
                        spec_wheel_offset(
                            o.mouse_location.y@,
                            o.offset.y@,
                            bounds.height@,
                            o.zoom@,
                            n.zoom@,
                        ),
                    )
                }
            },
        }
    }
}


impl ViewportState {
    /// Left press with the pointer over the canvas: select the first node
    /// hit, or start a drag and clear the selection.
    fn press_left(&mut self, bounds: &Bounds, locations: &Vec<NodeLocation>) -> (r: (
        EventStatus,
        Option<Message>,
    ))
        requires
            old(self).wf(),
            bounds.wf(),
            forall|i: int| 0 <= i < locations@.len() ==> (#[trigger] locations@[i]).wf(),
        ensures
            final(self).wf(),
            press_post(*old(self), *final(self), MouseButton::Left, *bounds, locations@, r),
    {
        let ghost cl = calm_state(*old(self)) && calm_bounds(*bounds) && calm_locations(
            locations@,
        );
        let zero = Frac { num: 0, den: 1 };
        if !zero.lt(self.mouse_location.y) {
            return (EventStatus::Captured, None);
        }
        let mut i: usize = 0;
        while i < locations.len()
            invariant
                self.wf(),
                *self == *old(self),
                bounds.wf(),
                rat_lt(rat(0, 1), self.mouse_location.y@),
                cl == (calm_state(*old(self)) && calm_bounds(*bounds) && calm_locations(
                    locations@,
                )),
                i <= locations@.len(),
                forall|k: int| 0 <= k < locations@.len() ==> (#[trigger] locations@[k]).wf(),
                forall|j: int| 0 <= j < i ==> !spec_hit(locations@[j], *old(self), *bounds),
            decreases locations@.len() - i,
        {
            let loc = &locations[i];
            let hit = match hit_node(loc, &*self, bounds) {
                Some(b) => b,
                None => {
                    proof {
                        if cl {
                            assert(pixel_like(locations@[i as int].x) && pixel_like(
                                locations@[i as int].y,
                            ));
                            assert(false);
                        }
                    }
                    return (EventStatus::Ignored, None);
                },
            };
            if hit {
                let id = loc.id.clone();
                proof {
                    assert(spec_hit(locations@[i as int], *old(self), *bounds));
                    assert(locations@[i as int].id@ == id@);
                }
                return (EventStatus::Captured, Some(Message::SelectCommit(id)));
            }
            i += 1;
        }
        self.dragging = true;
        self.dragging_start = self.mouse_location;
        self.offset_start = self.offset;
        (EventStatus::Captured, Some(Message::UnselectCommit))
    }


    /// Track the pointer; while dragging, pan the offset by the anchored
    /// formula.
    fn on_cursor_moved(&mut self, position: Vec2, bounds: &Bounds) -> (r: (
        EventStatus,
        Option<Message>,
    ))
        requires
            old(self).wf(),
            bounds.wf(),
            position.wf(),
        ensures
            final(self).wf(),
            move_post(*old(self), *final(self), position, *bounds, r),
    {
        let ghost cl = calm_state(*old(self)) && calm_bounds(*bounds) && calm_vec2(position);
        proof {
            if cl {
                lemma_abs_mul(position.x@.n, bounds.x@.d, 0x1000, 1);
                lemma_abs_mul(bounds.x@.n, position.x@.d, 0x1000, 1);
                assert(position.x@.d * bounds.x@.d <= 1) by (nonlinear_arith)
                    requires
                        1 <= position.x@.d <= 1,
                        1 <= bounds.x@.d <= 1,
                ;
                assert(iabs(rat_sub(position.x@, bounds.x@).n) <= 0x2000);
            }
        }
        let mx = match position.x.try_sub(bounds.x) {
            Some(v) => v,
            None => {
                proof {
                    if cl {
                        assert(false);
                    }
            }
                return (EventStatus::Ignored, None);
            },
        };
        proof {
            if cl {
                assert(-0x2000 <= mx.num <= 0x2000 && 1 <= mx.den <= 1);
            }
        }
        proof {
            if cl {
                lemma_abs_mul(position.y@.n, bounds.y@.d, 0x1000, 1);
                lemma_abs_mul(bounds.y@.n, position.y@.d, 0x1000, 1);
                assert(position.y@.d * bounds.y@.d <= 1) by (nonlinear_arith)
                    requires
                        1 <= position.y@.d <= 1,
                        1 <= bounds.y@.d <= 1,
                ;
                assert(iabs(rat_sub(position.y@, bounds.y@).n) <= 0x2000);
            }
        }
        let my = match position.y.try_sub(bounds.y) {
            Some(v) => v,
            None => {
                proof {
                    if cl {
                        assert(false);
                    }
            }
                return (EventStatus::Ignored, None);
            },
        };
        proof {
            if cl {
                assert(-0x2000 <= my.num <= 0x2000 && 1 <= my.den <= 1);
            }
        }
        if self.dragging {
            proof {
                if cl {
                    lemma_abs_mul(mx@.n, self.dragging_start.x@.d, 0x2000, 1);
                    lemma_abs_mul(self.dragging_start.x@.n, mx@.d, 0x1000, 1);
                    assert(mx@.d * self.dragging_start.x@.d <= 1) by (nonlinear_arith)
                        requires
                            mx@.d == 1,
                            self.dragging_start.x@.d == 1,
                    ;
                    assert(iabs(rat_sub(mx@, self.dragging_start.x@).n) <= 0x3000);
                }
            }
            let tx = match mx.try_sub(self.dragging_start.x) {
                Some(v) => v,
                None => {
                    proof {
                        if cl {
                            assert(false);
                        }
                    }
                    return (EventStatus::Ignored, None);
                },
            };
            proof {
                lemma_mul_pos(mx@.d, self.dragging_start.x@.d);
                lemma_sub_congr(
                    mx@,
                    rat_sub(position.x@, bounds.x@),
                    self.dragging_start.x@,
                    self.dragging_start.x@,
                );
                lemma_rat_trans(
                    tx@,
                    rat_sub(mx@, self.dragging_start.x@),
                    rat_sub(rat_sub(position.x@, bounds.x@), self.dragging_start.x@),
                );
                if cl {
                    assert(-0x3000 <= tx.num <= 0x3000 && 1 <= tx.den <= 1);
                    lemma_abs_mul(tx@.n, self.zoom@.d, 0x3000, 0x20);
                    assert(iabs(tx@.n * self.zoom@.d) <= 0x6_0000);
                    assert(tx@.d * iabs(self.zoom@.n) <= 0x40) by (nonlinear_arith)
                        requires
                            tx@.d == 1,
                            1 <= iabs(self.zoom@.n) <= 0x40,
                    ;
                }
            }
            let qx = match tx.try_div(self.zoom) {
                Some(v) => v,
                None => {
                    proof {
                        if cl {
                            assert(false);
                        }
                    }
                    return (EventStatus::Ignored, None);
                },
            };
            proof {
                lemma_mul_pos(tx@.d, self.zoom@.n);
                lemma_div_congr(
                    tx@,
                    rat_sub(rat_sub(position.x@, bounds.x@), self.dragging_start.x@),
                    self.zoom@,
                    self.zoom@,
                );
                lemma_rat_trans(
                    qx@,
                    rat_div(tx@, self.zoom@),
                    rat_div(
                        rat_sub(rat_sub(position.x@, bounds.x@), self.dragging_start.x@),
                        self.zoom@,
                    ),
                );
                if cl {
                    assert(-0x6_0000 <= qx.num <= 0x6_0000 && 1 <= qx.den <= 0x40);
                    lemma_abs_mul(self.offset_start.x@.n, qx@.d, 0x1000, 0x40);
                    lemma_abs_mul(qx@.n, self.offset_start.x@.d, 0x6_0000, 1);
                    assert(self.offset_start.x@.d * qx@.d <= 0x40) by (nonlinear_arith)
                        requires
                            self.offset_start.x@.d == 1,
                            1 <= qx@.d <= 0x40,
                    ;
                    assert(iabs(rat_add(self.offset_start.x@, qx@).n) <= 0xa_0000);
                }
            }
            let ox = match self.offset_start.x.try_add(qx) {
                Some(v) => v,
                None => {
                    proof {
                        if cl {
                            assert(false);
                        }
                    }
                    return (EventStatus::Ignored, None);
                },
            };
            proof {
                lemma_mul_pos(self.offset_start.x@.d, qx@.d);
                lemma_add_congr(
                    self.offset_start.x@,
                    self.offset_start.x@,
                    qx@,
                    rat_div(
                        rat_sub(rat_sub(position.x@, bounds.x@), self.dragging_start.x@),
                        self.zoom@,
                    ),
                );
                lemma_rat_trans(
                    ox@,
                    rat_add(self.offset_start.x@, qx@),
                    spec_pan_offset(
                        position.x@,
                        bounds.x@,
                        self.dragging_start.x@,
                        self.zoom@,
                        self.offset_start.x@,
                    ),
                );
            }
            proof {
                if cl {
                    lemma_abs_mul(my@.n, self.dragging_start.y@.d, 0x2000, 1);
                    lemma_abs_mul(self.dragging_start.y@.n, my@.d, 0x1000, 1);
                    assert(my@.d * self.dragging_start.y@.d <= 1) by (nonlinear_arith)
                        requires
                            my@.d == 1,
                            self.dragging_start.y@.d == 1,
                    ;
                    assert(iabs(rat_sub(my@, self.dragging_start.y@).n) <= 0x3000);
                }
            }
            let ty = match my.try_sub(self.dragging_start.y) {
                Some(v) => v,
                None => {
                    proof {
                        if cl {
                            assert(false);
                        }
                    }
                    return (EventStatus::Ignored, None);
                },
            };
            proof {
                lemma_mul_pos(my@.d, self.dragging_start.y@.d);
                lemma_sub_congr(
                    my@,
                    rat_sub(position.y@, bounds.y@),
                    self.dragging_start.y@,
                    self.dragging_start.y@,
                );
                lemma_rat_trans(
                    ty@,
                    rat_sub(my@, self.dragging_start.y@),
                    rat_sub(rat_sub(position.y@, bounds.y@), self.dragging_start.y@),
                );
                if cl {
                    assert(-0x3000 <= ty.num <= 0x3000 && 1 <= ty.den <= 1);
                    lemma_abs_mul(ty@.n, self.zoom@.d, 0x3000, 0x20);
                    assert(iabs(ty@.n * self.zoom@.d) <= 0x6_0000);
                    assert(ty@.d * iabs(self.zoom@.n) <= 0x40) by (nonlinear_arith)
                        requires
                            ty@.d == 1,
                            1 <= iabs(self.zoom@.n) <= 0x40,
                    ;
                }
            }
            let qy = match ty.try_div(self.zoom) {
                Some(v) => v,
                None => {
                    proof {
                        if cl {
                            assert(false);
                        }
                    }
                    return (EventStatus::Ignored, None);
                },
            };
            proof {
                lemma_mul_pos(ty@.d, self.zoom@.n);
                lemma_div_congr(
                    ty@,
                    rat_sub(rat_sub(position.y@, bounds.y@), self.dragging_start.y@),
                    self.zoom@,
                    self.zoom@,
                );
                lemma_rat_trans(
                    qy@,
                    rat_div(ty@, self.zoom@),
                    rat_div(
                        rat_sub(rat_sub(position.y@, bounds.y@), self.dragging_start.y@),
                        self.zoom@,
                    ),
                );
                if cl {
                    assert(-0x6_0000 <= qy.num <= 0x6_0000 && 1 <= qy.den <= 0x40);
                    lemma_abs_mul(self.offset_start.y@.n, qy@.d, 0x1000, 0x40);
                    lemma_abs_mul(qy@.n, self.offset_start.y@.d, 0x6_0000, 1);
                    assert(self.offset_start.y@.d * qy@.d <= 0x40) by (nonlinear_arith)
                        requires
                            self.offset_start.y@.d == 1,
                            1 <= qy@.d <= 0x40,
                    ;
                    assert(iabs(rat_add(self.offset_start.y@, qy@).n) <= 0xa_0000);
                }
            }
            let oy = match self.offset_start.y.try_add(qy) {
                Some(v) => v,
                None => {
                    proof {
                        if cl {
                            assert(false);
                        }
                    }
                    return (EventStatus::Ignored, None);
                },
            };
            proof {
                lemma_mul_pos(self.offset_start.y@.d, qy@.d);
                lemma_add_congr(
                    self.offset_start.y@,
                    self.offset_start.y@,
                    qy@,
                    rat_div(
                        rat_sub(rat_sub(position.y@, bounds.y@), self.dragging_start.y@),
                        self.zoom@,
                    ),
                );
                lemma_rat_trans(
                    oy@,
                    rat_add(self.offset_start.y@, qy@),
                    spec_pan_offset(
                        position.y@,
                        bounds.y@,
                        self.dragging_start.y@,
                        self.zoom@,
                        self.offset_start.y@,
                    ),
                );
            }
            self.mouse_location = Vec2 { x: mx, y: my };
            self.offset = Vec2 { x: ox, y: oy };
        } else {
            self.mouse_location = Vec2 { x: mx, y: my };
        }
        (EventStatus::Captured, None)
    }
}

impl ViewportState {
    /// Cursor-anchored zoom on a wheel event; a no-op while dragging and for
    /// pixel deltas.
    fn on_wheel(&mut self, delta: ScrollDelta, bounds: &Bounds) -> (r: (
        EventStatus,
        Option<Message>,
    ))
        requires
            old(self).wf(),
            bounds.wf(),
            match delta {
                ScrollDelta::Lines { y } => y.wf(),
                ScrollDelta::Pixels => true,
            },
        ensures
            final(self).wf(),
            wheel_post(*old(self), *final(self), delta, *bounds, r),
    {
        if self.dragging {
            return (EventStatus::Captured, None);
        }
        let zy = match delta {
            ScrollDelta::Pixels => {
                return (EventStatus::Captured, None);
            },
            ScrollDelta::Lines { y } => y,
        };
        let ghost cl = calm_state(*old(self)) && calm_bounds(*bounds) && wheel_like(zy);
        let half = Frac { num: 1, den: 2 };

        proof {
            if cl {
                lemma_abs_mul(bounds.width@.n, half@.n, 0x1000, 1);
                assert(bounds.width@.d * half@.d <= 2) by (nonlinear_arith)
                    requires
                        bounds.width@.d == 1,
                        half@.d == 2,
                ;
                assert(iabs(rat_mul(bounds.width@, half@).n) <= 0x1000);
            }
        }
        let hw = match bounds.width.try_mul(half) {
            Some(v) => v,
            None => {
                proof {
                    if cl {
                        assert(false);
                    }
                }
                return (EventStatus::Ignored, None);
            },
        };
        proof {
            assert(half@ == rat(1, 2));
            lemma_mul_pos(bounds.width@.d, half@.d);
            lemma_mul_congr(bounds.width@, bounds.width@, half@, rat(1, 2));
            lemma_rat_trans(hw@, rat_mul(bounds.width@, half@), rat_mul(bounds.width@, rat(1, 2)));
            lemma_half_mul(bounds.width@);
            assert(rat_eq(hw@, rat_half(bounds.width@)));
            if cl {
                assert(-0x1000 <= hw.num <= 0x1000 && 1 <= hw.den <= 2);
                lemma_abs_mul(self.mouse_location.x@.n, hw@.d, 0x1000, 2);
                lemma_abs_mul(hw@.n, self.mouse_location.x@.d, 0x1000, 1);
                assert(self.mouse_location.x@.d * hw@.d <= 2) by (nonlinear_arith)
                    requires
                        self.mouse_location.x@.d == 1,
                        1 <= hw@.d <= 2,
                ;
                assert(iabs(rat_sub(self.mouse_location.x@, hw@).n) <= 0x4000);
            }
        }
        let cx = match self.mouse_location.x.try_sub(hw) {
            Some(v) => v,
            None => {
                proof {
                    if cl {
                        assert(false);
                    }
                }
                return (EventStatus::Ignored, None);
            },
        };
        proof {
            lemma_mul_pos(self.mouse_location.x@.d, hw@.d);
            lemma_sub_congr(self.mouse_location.x@, self.mouse_location.x@, hw@, rat_half(bounds.width@));
            lemma_rat_trans(cx@, rat_sub(self.mouse_location.x@, hw@), rat_sub(self.mouse_location.x@, rat_half(bounds.width@)));
            if cl {
                assert(-0x4000 <= cx.num <= 0x4000 && 1 <= cx.den <= 2);
                lemma_abs_mul(cx@.n, self.zoom@.d, 0x4000, 0x20);
                assert(iabs(cx@.n * self.zoom@.d) <= 0x8_0000);
                assert(cx@.d * iabs(self.zoom@.n) <= 0x80) by (nonlinear_arith)
                    requires
                        1 <= cx@.d <= 2,
                        1 <= iabs(self.zoom@.n) <= 0x40,
                ;
            }
        }
        let ux = match cx.try_div(self.zoom) {
            Some(v) => v,
            None => {
                proof {
                    if cl {
                        assert(false);
                    }
                }
                return (EventStatus::Ignored, None);
            },
        };
        proof {
            lemma_mul_pos(cx@.d, self.zoom@.n);
            lemma_div_congr(cx@, rat_sub(self.mouse_location.x@, rat_half(bounds.width@)), self.zoom@, self.zoom@);
            lemma_rat_trans(ux@, rat_div(cx@, self.zoom@), rat_div(rat_sub(self.mouse_location.x@, rat_half(bounds.width@)), self.zoom@));
            if cl {
                assert(-0x8_0000 <= ux.num <= 0x8_0000 && 1 <= ux.den <= 0x80);
                lemma_abs_mul(ux@.n, self.offset.x@.d, 0x8_0000, 1);
                lemma_abs_mul(self.offset.x@.n, ux@.d, 0x1000, 0x80);
                assert(ux@.d * self.offset.x@.d <= 0x80) by (nonlinear_arith)
                    requires
                        1 <= ux@.d <= 0x80,
                        self.offset.x@.d == 1,
                ;
                assert(iabs(rat_sub(ux@, self.offset.x@).n) <= 0x10_0000);
            }
        }
        let gx = match ux.try_sub(self.offset.x) {
            Some(v) => v,
            None => {
                proof {
                    if cl {
                        assert(false);
                    }
                }
                return (EventStatus::Ignored, None);
            },
        };
        proof {
            lemma_mul_pos(ux@.d, self.offset.x@.d);
            lemma_sub_congr(ux@, rat_div(rat_sub(self.mouse_location.x@, rat_half(bounds.width@)), self.zoom@), self.offset.x@, self.offset.x@);
            lemma_rat_trans(gx@, rat_sub(ux@, self.offset.x@), rat_sub(rat_div(rat_sub(self.mouse_location.x@, rat_half(bounds.width@)), self.zoom@), self.offset.x@));
            if cl {
                assert(-0x10_0000 <= gx.num <= 0x10_0000 && 1 <= gx.den <= 0x80);
                lemma_abs_mul(gx@.n, self.offset.x@.d, 0x10_0000, 1);
                lemma_abs_mul(self.offset.x@.n, gx@.d, 0x1000, 0x80);
                assert(gx@.d * self.offset.x@.d <= 0x80) by (nonlinear_arith)
                    requires
                        1 <= gx@.d <= 0x80,
                        self.offset.x@.d == 1,
                ;
                assert(iabs(rat_add(gx@, self.offset.x@).n) <= 0x20_0000);
            }
        }
        let t1x = match gx.try_add(self.offset.x) {
            Some(v) => v,
            None => {
                proof {
                    if cl {
                        assert(false);
                    }
                }
                return (EventStatus::Ignored, None);
            },
        };
        proof {
            lemma_mul_pos(gx@.d, self.offset.x@.d);
            lemma_add_congr(gx@, rat_sub(rat_div(rat_sub(self.mouse_location.x@, rat_half(bounds.width@)), self.zoom@), self.offset.x@), self.offset.x@, self.offset.x@);
            lemma_rat_trans(t1x@, rat_add(gx@, self.offset.x@), rat_add(rat_sub(rat_div(rat_sub(self.mouse_location.x@, rat_half(bounds.width@)), self.zoom@), self.offset.x@), self.offset.x@));
            if cl {
                assert(-0x20_0000 <= t1x.num <= 0x20_0000 && 1 <= t1x.den <= 0x80);
                lemma_abs_mul(self.zoom@.n, t1x@.n, 0x40, 0x20_0000);
                assert(self.zoom@.d * t1x@.d <= 0x1000) by (nonlinear_arith)
                    requires
                        1 <= self.zoom@.d <= 0x20,
                        1 <= t1x@.d <= 0x80,
                ;
                assert(iabs(rat_mul(self.zoom@, t1x@).n) <= 0x800_0000);
            }
        }
        let m1x = match self.zoom.try_mul(t1x) {
            Some(v) => v,
            None => {
                proof {
                    if cl {
                        assert(false);
                    }
                }
                return (EventStatus::Ignored, None);
            },
        };
        proof {
            lemma_mul_pos(self.zoom@.d, t1x@.d);
            lemma_mul_congr(self.zoom@, self.zoom@, t1x@, rat_add(rat_sub(rat_div(rat_sub(self.mouse_location.x@, rat_half(bounds.width@)), self.zoom@), self.offset.x@), self.offset.x@));
            lemma_rat_trans(m1x@, rat_mul(self.zoom@, t1x@), rat_mul(self.zoom@, rat_add(rat_sub(rat_div(rat_sub(self.mouse_location.x@, rat_half(bounds.width@)), self.zoom@), self.offset.x@), self.offset.x@)));
            if cl {
                assert(-0x800_0000 <= m1x.num <= 0x800_0000 && 1 <= m1x.den <= 0x1000);
                lemma_abs_mul(m1x@.n, hw@.d, 0x800_0000, 2);
                lemma_abs_mul(hw@.n, m1x@.d, 0x1000, 0x1000);
                assert(m1x@.d * hw@.d <= 0x2000) by (nonlinear_arith)
                    requires
                        1 <= m1x@.d <= 0x1000,
                        1 <= hw@.d <= 2,
                ;
                assert(iabs(rat_add(m1x@, hw@).n) <= 0x2000_0000);
            }
        }
        let p1x = match m1x.try_add(hw) {
            Some(v) => v,
            None => {
                proof {
                    if cl {
                        assert(false);
                    }
                }
                return (EventStatus::Ignored, None);
            },
        };
        proof {
            lemma_mul_pos(m1x@.d, hw@.d);
            lemma_add_congr(m1x@, rat_mul(self.zoom@, rat_add(rat_sub(rat_div(rat_sub(self.mouse_location.x@, rat_half(bounds.width@)), self.zoom@), self.offset.x@), self.offset.x@)), hw@, rat_half(bounds.width@));
            lemma_rat_trans(p1x@, rat_add(m1x@, hw@), spec_project_x(rat_sub(rat_div(rat_sub(self.mouse_location.x@, rat_half(bounds.width@)), self.zoom@), self.offset.x@), self.offset.x@, self.zoom@, bounds.width@));
            if cl {
                assert(-0x2000_0000 <= p1x.num <= 0x2000_0000 && 1 <= p1x.den <= 0x2000);
            }
        }
        proof {
            if cl {
                lemma_abs_mul(bounds.height@.n, half@.n, 0x1000, 1);
                assert(bounds.height@.d * half@.d <= 2) by (nonlinear_arith)
                    requires
                        bounds.height@.d == 1,
                        half@.d == 2,
                ;
                assert(iabs(rat_mul(bounds.height@, half@).n) <= 0x1000);
            }
        }
        let hh = match bounds.height.try_mul(half) {
            Some(v) => v,
            None => {
                proof {
                    if cl {
                        assert(false);
                    }
                }
                return (EventStatus::Ignored, None);
            },
        };
        proof {
            assert(half@ == rat(1, 2));
            lemma_mul_pos(bounds.height@.d, half@.d);
            lemma_mul_congr(bounds.height@, bounds.height@, half@, rat(1, 2));
            lemma_rat_trans(hh@, rat_mul(bounds.height@, half@), rat_mul(bounds.height@, rat(1, 2)));
            lemma_half_mul(bounds.height@);
            assert(rat_eq(hh@, rat_half(bounds.height@)));
            if cl {
                assert(-0x1000 <= hh.num <= 0x1000 && 1 <= hh.den <= 2);
                lemma_abs_mul(self.mouse_location.y@.n, hh@.d, 0x1000, 2);
                lemma_abs_mul(hh@.n, self.mouse_location.y@.d, 0x1000, 1);
                assert(self.mouse_location.y@.d * hh@.d <= 2) by (nonlinear_arith)
                    requires
                        self.mouse_location.y@.d == 1,
                        1 <= hh@.d <= 2,
                ;
                assert(iabs(rat_sub(self.mouse_location.y@, hh@).n) <= 0x4000);
            }
        }
        let cy = match self.mouse_location.y.try_sub(hh) {
            Some(v) => v,
            None => {
                proof {
                    if cl {
                        assert(false);
                    }
                }
                return (EventStatus::Ignored, None);
            },
        };
        proof {
            lemma_mul_pos(self.mouse_location.y@.d, hh@.d);
            lemma_sub_congr(self.mouse_location.y@, self.mouse_location.y@, hh@, rat_half(bounds.height@));
            lemma_rat_trans(cy@, rat_sub(self.mouse_location.y@, hh@), rat_sub(self.mouse_location.y@, rat_half(bounds.height@)));
            if cl {
                assert(-0x4000 <= cy.num <= 0x4000 && 1 <= cy.den <= 2);
                lemma_abs_mul(cy@.n, self.zoom@.d, 0x4000, 0x20);
                assert(iabs(cy@.n * self.zoom@.d) <= 0x8_0000);
                assert(cy@.d * iabs(self.zoom@.n) <= 0x80) by (nonlinear_arith)
                    requires
                        1 <= cy@.d <= 2,
                        1 <= iabs(self.zoom@.n) <= 0x40,
                ;
            }
        }
        let uy = match cy.try_div(self.zoom) {
            Some(v) => v,
            None => {
                proof {
                    if cl {
                        assert(false);
                    }
                }
                return (EventStatus::Ignored, None);
            },
        };
        proof {
            lemma_mul_pos(cy@.d, self.zoom@.n);
            lemma_div_congr(cy@, rat_sub(self.mouse_location.y@, rat_half(bounds.height@)), self.zoom@, self.zoom@);
            lemma_rat_trans(uy@, rat_div(cy@, self.zoom@), rat_div(rat_sub(self.mouse_location.y@, rat_half(bounds.height@)), self.zoom@));
            if cl {
                assert(-0x8_0000 <= uy.num <= 0x8_0000 && 1 <= uy.den <= 0x80);
                lemma_abs_mul(uy@.n, self.offset.y@.d, 0x8_0000, 1);
                lemma_abs_mul(self.offset.y@.n, uy@.d, 0x1000, 0x80);
                assert(uy@.d * self.offset.y@.d <= 0x80) by (nonlinear_arith)
                    requires
                        1 <= uy@.d <= 0x80,
                        self.offset.y@.d == 1,
                ;
                assert(iabs(rat_sub(uy@, self.offset.y@).n) <= 0x10_0000);
            }
        }
        let gy = match uy.try_sub(self.offset.y) {
            Some(v) => v,
            None => {
                proof {
                    if cl {
                        assert(false);
                    }
                }
                return (EventStatus::Ignored, None);
            },
        };
        proof {
            lemma_mul_pos(uy@.d, self.offset.y@.d);
            lemma_sub_congr(uy@, rat_div(rat_sub(self.mouse_location.y@, rat_half(bounds.height@)), self.zoom@), self.offset.y@, self.offset.y@);
            lemma_rat_trans(gy@, rat_sub(uy@, self.offset.y@), rat_sub(rat_div(rat_sub(self.mouse_location.y@, rat_half(bounds.height@)), self.zoom@), self.offset.y@));
            if cl {
                assert(-0x10_0000 <= gy.num <= 0x10_0000 && 1 <= gy.den <= 0x80);
                lemma_abs_mul(gy@.n, self.offset.y@.d, 0x10_0000, 1);
                lemma_abs_mul(self.offset.y@.n, gy@.d, 0x1000, 0x80);
                assert(gy@.d * self.offset.y@.d <= 0x80) by (nonlinear_arith)
                    requires
                        1 <= gy@.d <= 0x80,
                        self.offset.y@.d == 1,
                ;
                assert(iabs(rat_add(gy@, self.offset.y@).n) <= 0x20_0000);
            }
        }
        let t1y = match gy.try_add(self.offset.y) {
            Some(v) => v,
            None => {
                proof {
                    if cl {
                        assert(false);
                    }
                }
                return (EventStatus::Ignored, None);
            },
        };
        proof {
            lemma_mul_pos(gy@.d, self.offset.y@.d);
            lemma_add_congr(gy@, rat_sub(rat_div(rat_sub(self.mouse_location.y@, rat_half(bounds.height@)), self.zoom@), self.offset.y@), self.offset.y@, self.offset.y@);
            lemma_rat_trans(t1y@, rat_add(gy@, self.offset.y@), rat_add(rat_sub(rat_div(rat_sub(self.mouse_location.y@, rat_half(bounds.height@)), self.zoom@), self.offset.y@), self.offset.y@));
            if cl {
                assert(-0x20_0000 <= t1y.num <= 0x20_0000 && 1 <= t1y.den <= 0x80);
                lemma_abs_mul(self.zoom@.n, t1y@.n, 0x40, 0x20_0000);
                assert(self.zoom@.d * t1y@.d <= 0x1000) by (nonlinear_arith)
                    requires
                        1 <= self.zoom@.d <= 0x20,
                        1 <= t1y@.d <= 0x80,
                ;
                assert(iabs(rat_mul(self.zoom@, t1y@).n) <= 0x800_0000);
            }
        }
        let m1y = match self.zoom.try_mul(t1y) {
            Some(v) => v,
            None => {
                proof {
                    if cl {
                        assert(false);
                    }
                }
                return (EventStatus::Ignored, None);
            },
        };
        proof {
            lemma_mul_pos(self.zoom@.d, t1y@.d);
            lemma_mul_congr(self.zoom@, self.zoom@, t1y@, rat_add(rat_sub(rat_div(rat_sub(self.mouse_location.y@, rat_half(bounds.height@)), self.zoom@), self.offset.y@), self.offset.y@));
            lemma_rat_trans(m1y@, rat_mul(self.zoom@, t1y@), rat_mul(self.zoom@, rat_add(rat_sub(rat_div(rat_sub(self.mouse_location.y@, rat_half(bounds.height@)), self.zoom@), self.offset.y@), self.offset.y@)));
            if cl {
                assert(-0x800_0000 <= m1y.num <= 0x800_0000 && 1 <= m1y.den <= 0x1000);
                lemma_abs_mul(m1y@.n, hh@.d, 0x800_0000, 2);
                lemma_abs_mul(hh@.n, m1y@.d, 0x1000, 0x1000);
                assert(m1y@.d * hh@.d <= 0x2000) by (nonlinear_arith)
                    requires
                        1 <= m1y@.d <= 0x1000,
                        1 <= hh@.d <= 2,
                ;
                assert(iabs(rat_add(m1y@, hh@).n) <= 0x2000_0000);
            }
        }
        let p1y = match m1y.try_add(hh) {
            Some(v) => v,
            None => {
                proof {
                    if cl {
                        assert(false);
                    }
                }
                return (EventStatus::Ignored, None);
            },
        };
        proof {
            lemma_mul_pos(m1y@.d, hh@.d);
            lemma_add_congr(m1y@, rat_mul(self.zoom@, rat_add(rat_sub(rat_div(rat_sub(self.mouse_location.y@, rat_half(bounds.height@)), self.zoom@), self.offset.y@), self.offset.y@)), hh@, rat_half(bounds.height@));
            lemma_rat_trans(p1y@, rat_add(m1y@, hh@), spec_project_x(rat_sub(rat_div(rat_sub(self.mouse_location.y@, rat_half(bounds.height@)), self.zoom@), self.offset.y@), self.offset.y@, self.zoom@, bounds.height@));
            if cl {
                assert(-0x2000_0000 <= p1y.num <= 0x2000_0000 && 1 <= p1y.den <= 0x2000);
            }
        }
        let three20 = Frac { num: 3, den: 20 };
        proof {
            if cl {
                lemma_abs_mul(zy@.n, three20@.n, 0x10, 3);
                assert(zy@.d * three20@.d <= 20) by (nonlinear_arith)
                    requires
                        zy@.d == 1,
                        three20@.d == 20,
                ;
                assert(iabs(rat_mul(zy@, three20@).n) <= 0x30);
            }
        }
        let f1 = match zy.try_mul(three20) {
            Some(v) => v,
            None => {
                proof {
                    if cl {
                        assert(false);
                    }
                }
                return (EventStatus::Ignored, None);
            },
        };
        proof {
            assert(three20@ == rat(3, 20));
            lemma_mul_pos(zy@.d, three20@.d);
            lemma_mul_congr(zy@, zy@, three20@, rat(3, 20));
            lemma_rat_trans(f1@, rat_mul(zy@, three20@), rat_mul(zy@, rat(3, 20)));
            if cl {
                assert(-0x30 <= f1.num <= 0x30 && 1 <= f1.den <= 20);
            }
        }
        let one = Frac { num: 1, den: 1 };
        proof {
            if cl {
                lemma_abs_mul(one@.n, f1@.d, 1, 20);
                lemma_abs_mul(f1@.n, one@.d, 0x30, 1);
                assert(one@.d * f1@.d <= 20) by (nonlinear_arith)
                    requires
                        one@.d == 1,
                        1 <= f1@.d <= 20,
                ;
                assert(iabs(rat_add(one@, f1@).n) <= 0x50);
            }
        }
        let f2 = match one.try_add(f1) {
            Some(v) => v,
            None => {
                proof {
                    if cl {
                        assert(false);
                    }
                }
                return (EventStatus::Ignored, None);
            },
        };
        proof {
            assert(one@ == rat(1, 1));
            lemma_mul_pos(one@.d, f1@.d);
            lemma_add_congr(one@, rat(1, 1), f1@, rat_mul(zy@, rat(3, 20)));
            lemma_rat_trans(
                f2@,
                rat_add(one@, f1@),
                rat_add(rat(1, 1), rat_mul(zy@, rat(3, 20))),
            );
            if cl {
                assert(-0x50 <= f2.num <= 0x50 && 1 <= f2.den <= 20);
                lemma_abs_mul(self.zoom@.n, f2@.n, 0x40, 0x50);
                assert(self.zoom@.d * f2@.d <= 0x280) by (nonlinear_arith)
                    requires
                        1 <= self.zoom@.d <= 0x20,
                        1 <= f2@.d <= 20,
                ;
                assert(iabs(rat_mul(self.zoom@, f2@).n) <= 0x1400);
            }
        }
        let z2 = match self.zoom.try_mul(f2) {
            Some(v) => v,
            None => {
                proof {
                    if cl {
                        assert(false);
                    }
                }
                return (EventStatus::Ignored, None);
            },
        };
        proof {
            lemma_mul_pos(self.zoom@.d, f2@.d);
            lemma_mul_congr(
                self.zoom@,
                self.zoom@,
                f2@,
                rat_add(rat(1, 1), rat_mul(zy@, rat(3, 20))),
            );
            lemma_rat_trans(
                z2@,
                rat_mul(self.zoom@, f2@),
                spec_zoom_target(self.zoom@, zy@),
            );
            if cl {
                assert(-0x1400 <= z2.num <= 0x1400 && 1 <= z2.den <= 0x280);
            }
        }
        let lo = Frac { num: 1, den: 1000 };
        let hi = Frac { num: 4, den: 1 };
        let z2c = z2.clamped(lo, hi);
        proof {
            let zt = spec_zoom_target(self.zoom@, zy@);
            lemma_mul_pos(zy@.d, 20);
            lemma_mul_pos(1, zy@.d * 20);
            lemma_mul_pos(self.zoom@.d, 1 * (zy@.d * 20));
            assert(zt.d >= 1);
            lemma_lt_congr(z2@, zt, lo@, rat(1, 1000));
            lemma_lt_congr(hi@, rat(4, 1), z2@, zt);
            if rat_lt(z2@, lo@) {
                assert(z2c == lo);
            } else if rat_lt(hi@, z2@) {
                assert(z2c == hi);
            } else {
                assert(z2c == z2);
                assert(z2.num >= 1) by (nonlinear_arith)
                    requires
                        z2@.n * 1000 >= 1 * z2@.d,
                        z2@.d >= 1,
                ;
            }
            assert(zoom_clamped_to(self.zoom@, zy@, z2c@));
            assert(z2c.wf() && z2c.pos());
            if cl {
                assert(-0x1400 <= z2c.num <= 0x1400 && 1 <= z2c.den <= 1000);
            }
        }

        proof {
            if cl {
                assert(iabs(rat_add(gx@, self.offset.x@).n) <= 0x20_0000);
                assert(gx@.d * self.offset.x@.d <= 0x80) by (nonlinear_arith)
                    requires
                        1 <= gx@.d <= 0x80,
                        self.offset.x@.d == 1,
                ;
            }
        }
        let t2x = match gx.try_add(self.offset.x) {
            Some(v) => v,
            None => {
                proof {
                    if cl {
                        assert(false);
                    }
                }
                return (EventStatus::Ignored, None);
            },
        };
        proof {
            lemma_mul_pos(gx@.d, self.offset.x@.d);
            lemma_add_congr(gx@, rat_sub(rat_div(rat_sub(self.mouse_location.x@, rat_half(bounds.width@)), self.zoom@), self.offset.x@), self.offset.x@, self.offset.x@);
            lemma_rat_trans(t2x@, rat_add(gx@, self.offset.x@), rat_add(rat_sub(rat_div(rat_sub(self.mouse_location.x@, rat_half(bounds.width@)), self.zoom@), self.offset.x@), self.offset.x@));
            if cl {
                assert(-0x20_0000 <= t2x.num <= 0x20_0000 && 1 <= t2x.den <= 0x80);
                lemma_abs_mul(z2c@.n, t2x@.n, 0x1400, 0x20_0000);
                assert(z2c@.d * t2x@.d <= 0x2_0000) by (nonlinear_arith)
                    requires
                        1 <= z2c@.d <= 1000,
                        1 <= t2x@.d <= 0x80,
                ;
                assert(iabs(rat_mul(z2c@, t2x@).n) <= 0x4_0000_0000);
            }
        }
        let m2x = match z2c.try_mul(t2x) {
            Some(v) => v,
            None => {
                proof {
                    if cl {
                        assert(false);
                    }
                }
                return (EventStatus::Ignored, None);
            },
        };
        proof {
            lemma_mul_pos(z2c@.d, t2x@.d);
            lemma_mul_congr(z2c@, z2c@, t2x@, rat_add(rat_sub(rat_div(rat_sub(self.mouse_location.x@, rat_half(bounds.width@)), self.zoom@), self.offset.x@), self.offset.x@));
            lemma_rat_trans(m2x@, rat_mul(z2c@, t2x@), rat_mul(z2c@, rat_add(rat_sub(rat_div(rat_sub(self.mouse_location.x@, rat_half(bounds.width@)), self.zoom@), self.offset.x@), self.offset.x@)));
            if cl {
                assert(-0x4_0000_0000 <= m2x.num <= 0x4_0000_0000 && 1 <= m2x.den <= 0x2_0000);
                lemma_abs_mul(m2x@.n, hw@.d, 0x4_0000_0000, 2);
                lemma_abs_mul(hw@.n, m2x@.d, 0x1000, 0x2_0000);
                assert(m2x@.d * hw@.d <= 0x4_0000) by (nonlinear_arith)
                    requires
                        1 <= m2x@.d <= 0x2_0000,
                        1 <= hw@.d <= 2,
                ;
                assert(iabs(rat_add(m2x@, hw@).n) <= 0x10_0000_0000);
            }
        }
        let p2x = match m2x.try_add(hw) {
            Some(v) => v,
            None => {
                proof {
                    if cl {
                        assert(false);
                    }
                }
                return (EventStatus::Ignored, None);
            },
        };
        proof {
            lemma_mul_pos(m2x@.d, hw@.d);
            lemma_add_congr(m2x@, rat_mul(z2c@, rat_add(rat_sub(rat_div(rat_sub(self.mouse_location.x@, rat_half(bounds.width@)), self.zoom@), self.offset.x@), self.offset.x@)), hw@, rat_half(bounds.width@));
            lemma_rat_trans(p2x@, rat_add(m2x@, hw@), spec_project_x(rat_sub(rat_div(rat_sub(self.mouse_location.x@, rat_half(bounds.width@)), self.zoom@), self.offset.x@), self.offset.x@, z2c@, bounds.width@));
            if cl {
                assert(-0x10_0000_0000 <= p2x.num <= 0x10_0000_0000 && 1 <= p2x.den
                    <= 0x4_0000);
                lemma_abs_mul(p2x@.n, p1x@.d, 0x10_0000_0000, 0x2000);
                lemma_abs_mul(p1x@.n, p2x@.d, 0x2000_0000, 0x4_0000);
                assert(p2x@.d * p1x@.d <= 0x8000_0000) by (nonlinear_arith)
                    requires
                        1 <= p2x@.d <= 0x4_0000,
                        1 <= p1x@.d <= 0x2000,
                ;
                assert(iabs(rat_sub(p2x@, p1x@).n) <= 0x4_0000_0000_0000);
            }
        }
        let dx = match p2x.try_sub(p1x) {
            Some(v) => v,
            None => {
                proof {
                    if cl {
                        assert(false);
                    }
                }
                return (EventStatus::Ignored, None);
            },
        };
        proof {
            lemma_mul_pos(p2x@.d, p1x@.d);
            lemma_sub_congr(p2x@, spec_project_x(rat_sub(rat_div(rat_sub(self.mouse_location.x@, rat_half(bounds.width@)), self.zoom@), self.offset.x@), self.offset.x@, z2c@, bounds.width@), p1x@, spec_project_x(rat_sub(rat_div(rat_sub(self.mouse_location.x@, rat_half(bounds.width@)), self.zoom@), self.offset.x@), self.offset.x@, self.zoom@, bounds.width@));
            lemma_rat_trans(dx@, rat_sub(p2x@, p1x@), rat_sub(spec_project_x(rat_sub(rat_div(rat_sub(self.mouse_location.x@, rat_half(bounds.width@)), self.zoom@), self.offset.x@), self.offset.x@, z2c@, bounds.width@), spec_project_x(rat_sub(rat_div(rat_sub(self.mouse_location.x@, rat_half(bounds.width@)), self.zoom@), self.offset.x@), self.offset.x@, self.zoom@, bounds.width@)));
            if cl {
                assert(-0x4_0000_0000_0000 <= dx.num <= 0x4_0000_0000_0000 && 1 <= dx.den
                    <= 0x8000_0000);
                lemma_abs_mul(dx@.n, z2c@.d, 0x4_0000_0000_0000, 1000);
                assert(iabs(dx@.n * z2c@.d) <= 0x1000_0000_0000_0000);
                assert(dx@.d * iabs(z2c@.n) <= 0x2000_0000_0000) by (nonlinear_arith)
                    requires
                        1 <= dx@.d <= 0x8000_0000,
                        1 <= iabs(z2c@.n) <= 0x1400,
                ;
            }
        }
        let qx = match dx.try_div(z2c) {
            Some(v) => v,
            None => {
                proof {
                    if cl {
                        assert(false);
                    }
                }
                return (EventStatus::Ignored, None);
            },
        };
        proof {
            lemma_mul_pos(dx@.d, z2c@.n);
            lemma_div_congr(dx@, rat_sub(spec_project_x(rat_sub(rat_div(rat_sub(self.mouse_location.x@, rat_half(bounds.width@)), self.zoom@), self.offset.x@), self.offset.x@, z2c@, bounds.width@), spec_project_x(rat_sub(rat_div(rat_sub(self.mouse_location.x@, rat_half(bounds.width@)), self.zoom@), self.offset.x@), self.offset.x@, self.zoom@, bounds.width@)), z2c@, z2c@);
            lemma_rat_trans(qx@, rat_div(dx@, z2c@), rat_div(rat_sub(spec_project_x(rat_sub(rat_div(rat_sub(self.mouse_location.x@, rat_half(bounds.width@)), self.zoom@), self.offset.x@), self.offset.x@, z2c@, bounds.width@), spec_project_x(rat_sub(rat_div(rat_sub(self.mouse_location.x@, rat_half(bounds.width@)), self.zoom@), self.offset.x@), self.offset.x@, self.zoom@, bounds.width@)), z2c@));
            if cl {
                assert(-0x1000_0000_0000_0000 <= qx.num <= 0x1000_0000_0000_0000 && 1 <= qx.den
                    <= 0x2000_0000_0000);
                lemma_abs_mul(self.offset.x@.n, qx@.d, 0x1000, 0x2000_0000_0000);
                lemma_abs_mul(qx@.n, self.offset.x@.d, 0x1000_0000_0000_0000, 1);
                assert(self.offset.x@.d * qx@.d <= 0x2000_0000_0000) by (nonlinear_arith)
                    requires
                        self.offset.x@.d == 1,
                        1 <= qx@.d <= 0x2000_0000_0000,
                ;
                assert(iabs(rat_sub(self.offset.x@, qx@).n) <= 0x4000_0000_0000_0000);
            }
        }
        let ox = match self.offset.x.try_sub(qx) {
            Some(v) => v,
            None => {
                proof {
                    if cl {
                        assert(false);
                    }
                }
                return (EventStatus::Ignored, None);
            },
        };
        proof {
            lemma_mul_pos(self.offset.x@.d, qx@.d);
            lemma_sub_congr(self.offset.x@, self.offset.x@, qx@, rat_div(rat_sub(spec_project_x(rat_sub(rat_div(rat_sub(self.mouse_location.x@, rat_half(bounds.width@)), self.zoom@), self.offset.x@), self.offset.x@, z2c@, bounds.width@), spec_project_x(rat_sub(rat_div(rat_sub(self.mouse_location.x@, rat_half(bounds.width@)), self.zoom@), self.offset.x@), self.offset.x@, self.zoom@, bounds.width@)), z2c@));
            lemma_rat_trans(ox@, rat_sub(self.offset.x@, qx@), rat_sub(self.offset.x@, rat_div(rat_sub(spec_project_x(rat_sub(rat_div(rat_sub(self.mouse_location.x@, rat_half(bounds.width@)), self.zoom@), self.offset.x@), self.offset.x@, z2c@, bounds.width@), spec_project_x(rat_sub(rat_div(rat_sub(self.mouse_location.x@, rat_half(bounds.width@)), self.zoom@), self.offset.x@), self.offset.x@, self.zoom@, bounds.width@)), z2c@)));
            assert(rat_eq(
                ox@,
                spec_wheel_offset(self.mouse_location.x@, self.offset.x@, bounds.width@, self.zoom@, z2c@),
            ));
        }
        proof {
            if cl {
                assert(iabs(rat_add(gy@, self.offset.y@).n) <= 0x20_0000);
                assert(gy@.d * self.offset.y@.d <= 0x80) by (nonlinear_arith)
                    requires
                        1 <= gy@.d <= 0x80,
                        self.offset.y@.d == 1,
                ;
            }
        }
        let t2y = match gy.try_add(self.offset.y) {
            Some(v) => v,
            None => {
                proof {
                    if cl {
                        assert(false);
                    }
                }
                return (EventStatus::Ignored, None);
            },
        };
        proof {
            lemma_mul_pos(gy@.d, self.offset.y@.d);
            lemma_add_congr(gy@, rat_sub(rat_div(rat_sub(self.mouse_location.y@, rat_half(bounds.height@)), self.zoom@), self.offset.y@), self.offset.y@, self.offset.y@);
            lemma_rat_trans(t2y@, rat_add(gy@, self.offset.y@), rat_add(rat_sub(rat_div(rat_sub(self.mouse_location.y@, rat_half(bounds.height@)), self.zoom@), self.offset.y@), self.offset.y@));
            if cl {
                assert(-0x20_0000 <= t2y.num <= 0x20_0000 && 1 <= t2y.den <= 0x80);
                lemma_abs_mul(z2c@.n, t2y@.n, 0x1400, 0x20_0000);
                assert(z2c@.d * t2y@.d <= 0x2_0000) by (nonlinear_arith)
                    requires
                        1 <= z2c@.d <= 1000,
                        1 <= t2y@.d <= 0x80,
                ;
                assert(iabs(rat_mul(z2c@, t2y@).n) <= 0x4_0000_0000);
            }
        }
        let m2y = match z2c.try_mul(t2y) {
            Some(v) => v,
            None => {
                proof {
                    if cl {
                        assert(false);
                    }
                }
                return (EventStatus::Ignored, None);
            },
        };
        proof {
            lemma_mul_pos(z2c@.d, t2y@.d);
            lemma_mul_congr(z2c@, z2c@, t2y@, rat_add(rat_sub(rat_div(rat_sub(self.mouse_location.y@, rat_half(bounds.height@)), self.zoom@), self.offset.y@), self.offset.y@));
            lemma_rat_trans(m2y@, rat_mul(z2c@, t2y@), rat_mul(z2c@, rat_add(rat_sub(rat_div(rat_sub(self.mouse_location.y@, rat_half(bounds.height@)), self.zoom@), self.offset.y@), self.offset.y@)));
            if cl {
                assert(-0x4_0000_0000 <= m2y.num <= 0x4_0000_0000 && 1 <= m2y.den <= 0x2_0000);
                lemma_abs_mul(m2y@.n, hh@.d, 0x4_0000_0000, 2);
                lemma_abs_mul(hh@.n, m2y@.d, 0x1000, 0x2_0000);
                assert(m2y@.d * hh@.d <= 0x4_0000) by (nonlinear_arith)
                    requires
                        1 <= m2y@.d <= 0x2_0000,
                        1 <= hh@.d <= 2,
                ;
                assert(iabs(rat_add(m2y@, hh@).n) <= 0x10_0000_0000);
            }
        }
        let p2y = match m2y.try_add(hh) {
            Some(v) => v,
            None => {
                proof {
                    if cl {
                        assert(false);
                    }
                }
                return (EventStatus::Ignored, None);
            },
        };
        proof {
            lemma_mul_pos(m2y@.d, hh@.d);
            lemma_add_congr(m2y@, rat_mul(z2c@, rat_add(rat_sub(rat_div(rat_sub(self.mouse_location.y@, rat_half(bounds.height@)), self.zoom@), self.offset.y@), self.offset.y@)), hh@, rat_half(bounds.height@));
            lemma_rat_trans(p2y@, rat_add(m2y@, hh@), spec_project_x(rat_sub(rat_div(rat_sub(self.mouse_location.y@, rat_half(bounds.height@)), self.zoom@), self.offset.y@), self.offset.y@, z2c@, bounds.height@));
            if cl {
                assert(-0x10_0000_0000 <= p2y.num <= 0x10_0000_0000 && 1 <= p2y.den
                    <= 0x4_0000);
                lemma_abs_mul(p2y@.n, p1y@.d, 0x10_0000_0000, 0x2000);
                lemma_abs_mul(p1y@.n, p2y@.d, 0x2000_0000, 0x4_0000);
                assert(p2y@.d * p1y@.d <= 0x8000_0000) by (nonlinear_arith)
                    requires
                        1 <= p2y@.d <= 0x4_0000,
                        1 <= p1y@.d <= 0x2000,
                ;
                assert(iabs(rat_sub(p2y@, p1y@).n) <= 0x4_0000_0000_0000);
            }
        }
        let dy = match p2y.try_sub(p1y) {
            Some(v) => v,
            None => {
                proof {
                    if cl {
                        assert(false);
                    }
                }
                return (EventStatus::Ignored, None);
            },
        };
        proof {
            lemma_mul_pos(p2y@.d, p1y@.d);
            lemma_sub_congr(p2y@, spec_project_x(rat_sub(rat_div(rat_sub(self.mouse_location.y@, rat_half(bounds.height@)), self.zoom@), self.offset.y@), self.offset.y@, z2c@, bounds.height@), p1y@, spec_project_x(rat_sub(rat_div(rat_sub(self.mouse_location.y@, rat_half(bounds.height@)), self.zoom@), self.offset.y@), self.offset.y@, self.zoom@, bounds.height@));
            lemma_rat_trans(dy@, rat_sub(p2y@, p1y@), rat_sub(spec_project_x(rat_sub(rat_div(rat_sub(self.mouse_location.y@, rat_half(bounds.height@)), self.zoom@), self.offset.y@), self.offset.y@, z2c@, bounds.height@), spec_project_x(rat_sub(rat_div(rat_sub(self.mouse_location.y@, rat_half(bounds.height@)), self.zoom@), self.offset.y@), self.offset.y@, self.zoom@, bounds.height@)));
            if cl {
                assert(-0x4_0000_0000_0000 <= dy.num <= 0x4_0000_0000_0000 && 1 <= dy.den
                    <= 0x8000_0000);
                lemma_abs_mul(dy@.n, z2c@.d, 0x4_0000_0000_0000, 1000);
                assert(iabs(dy@.n * z2c@.d) <= 0x1000_0000_0000_0000);
                assert(dy@.d * iabs(z2c@.n) <= 0x2000_0000_0000) by (nonlinear_arith)
                    requires
                        1 <= dy@.d <= 0x8000_0000,
                        1 <= iabs(z2c@.n) <= 0x1400,
                ;
            }
        }
        let qy = match dy.try_div(z2c) {
            Some(v) => v,
            None => {
                proof {
                    if cl {
                        assert(false);
                    }
                }
                return (EventStatus::Ignored, None);
            },
        };
        proof {
            lemma_mul_pos(dy@.d, z2c@.n);
            lemma_div_congr(dy@, rat_sub(spec_project_x(rat_sub(rat_div(rat_sub(self.mouse_location.y@, rat_half(bounds.height@)), self.zoom@), self.offset.y@), self.offset.y@, z2c@, bounds.height@), spec_project_x(rat_sub(rat_div(rat_sub(self.mouse_location.y@, rat_half(bounds.height@)), self.zoom@), self.offset.y@), self.offset.y@, self.zoom@, bounds.height@)), z2c@, z2c@);
            lemma_rat_trans(qy@, rat_div(dy@, z2c@), rat_div(rat_sub(spec_project_x(rat_sub(rat_div(rat_sub(self.mouse_location.y@, rat_half(bounds.height@)), self.zoom@), self.offset.y@), self.offset.y@, z2c@, bounds.height@), spec_project_x(rat_sub(rat_div(rat_sub(self.mouse_location.y@, rat_half(bounds.height@)), self.zoom@), self.offset.y@), self.offset.y@, self.zoom@, bounds.height@)), z2c@));
            if cl {
                assert(-0x1000_0000_0000_0000 <= qy.num <= 0x1000_0000_0000_0000 && 1 <= qy.den
                    <= 0x2000_0000_0000);
                lemma_abs_mul(self.offset.y@.n, qy@.d, 0x1000, 0x2000_0000_0000);
                lemma_abs_mul(qy@.n, self.offset.y@.d, 0x1000_0000_0000_0000, 1);
                assert(self.offset.y@.d * qy@.d <= 0x2000_0000_0000) by (nonlinear_arith)
                    requires
                        self.offset.y@.d == 1,
                        1 <= qy@.d <= 0x2000_0000_0000,
                ;
                assert(iabs(rat_sub(self.offset.y@, qy@).n) <= 0x4000_0000_0000_0000);
            }
        }
        let oy = match self.offset.y.try_sub(qy) {
            Some(v) => v,
            None => {
                proof {
                    if cl {
                        assert(false);
                    }
                }
                return (EventStatus::Ignored, None);
            },
        };
        proof {
            lemma_mul_pos(self.offset.y@.d, qy@.d);
            lemma_sub_congr(self.offset.y@, self.offset.y@, qy@, rat_div(rat_sub(spec_project_x(rat_sub(rat_div(rat_sub(self.mouse_location.y@, rat_half(bounds.height@)), self.zoom@), self.offset.y@), self.offset.y@, z2c@, bounds.height@), spec_project_x(rat_sub(rat_div(rat_sub(self.mouse_location.y@, rat_half(bounds.height@)), self.zoom@), self.offset.y@), self.offset.y@, self.zoom@, bounds.height@)), z2c@));
            lemma_rat_trans(oy@, rat_sub(self.offset.y@, qy@), rat_sub(self.offset.y@, rat_div(rat_sub(spec_project_x(rat_sub(rat_div(rat_sub(self.mouse_location.y@, rat_half(bounds.height@)), self.zoom@), self.offset.y@), self.offset.y@, z2c@, bounds.height@), spec_project_x(rat_sub(rat_div(rat_sub(self.mouse_location.y@, rat_half(bounds.height@)), self.zoom@), self.offset.y@), self.offset.y@, self.zoom@, bounds.height@)), z2c@)));
            assert(rat_eq(
                oy@,
                spec_wheel_offset(self.mouse_location.y@, self.offset.y@, bounds.height@, self.zoom@, z2c@),
            ));
        }
        let ghost o = *self;
        self.zoom = z2c;
        self.offset = Vec2 { x: ox, y: oy };
        (EventStatus::Captured, None)
    }
}


/// Well-formedness of the fractions an event carries.
pub open spec fn event_wf(event: CanvasEvent) -> bool {
    match event {
        CanvasEvent::CursorMoved { position } => position.wf(),
        CanvasEvent::WheelScrolled { delta } => match delta {
            ScrollDelta::Lines { y } => y.wf(),
            ScrollDelta::Pixels => true,
        },
        _ => true,
    }
}

impl ViewportState {
    /// Run one input event through the interaction state machine; returns
    /// whether the event was consumed and an intent for the application.
    /// Events whose exact-arithmetic update would leave the representable
    /// range are reported unconsumed and change nothing; on calm (screen-
    /// sized) inputs that never happens.
    pub fn update(
        &mut self,
        event: CanvasEvent,
        bounds: &Bounds,
        locations: &Vec<NodeLocation>,
    ) -> (r: (EventStatus, Option<Message>))
        requires
            old(self).wf(),
            bounds.wf(),
            event_wf(event),
            forall|i: int| 0 <= i < locations@.len() ==> (#[trigger] locations@[i]).wf(),
        ensures
            final(self).wf(),
            match event {
                CanvasEvent::ButtonPressed(button) => press_post(
                    *old(self),
                    *final(self),
                    button,
                    *bounds,
                    locations@,
                    r,
                ),
                CanvasEvent::ButtonReleased(button) => if button == MouseButton::Left {
                    final(self).dragging == false && final(self).mouse_location == old(
                        self,
                    ).mouse_location && final(self).offset == old(self).offset && final(self).zoom
                        == old(self).zoom && final(self).offset_start == old(self).offset_start
                        && final(self).dragging_start == old(self).dragging_start && r.0
                        == EventStatus::Captured && r.1 is None
                } else {
                    *final(self) == *old(self) && r.0 == EventStatus::Ignored && r.1 is None
                },
                CanvasEvent::CursorMoved { position } => move_post(
                    *old(self),
                    *final(self),
                    position,
                    *bounds,
                    r,
                ),
                CanvasEvent::WheelScrolled { delta } => wheel_post(
                    *old(self),
                    *final(self),
                    delta,
                    *bounds,
                    r,
                ),
                CanvasEvent::Other => *final(self) == *old(self) && r.0 == EventStatus::Ignored
                    && r.1 is None,
            },
    {
        match event {
            CanvasEvent::ButtonPressed(button) => {
                if matches!(button, MouseButton::Left) {
                    self.press_left(bounds, locations)
                } else {
                    (EventStatus::Ignored, None)
                }
            },
            CanvasEvent::ButtonReleased(button) => {
                if matches!(button, MouseButton::Left) {
                    if self.dragging {
                        self.dragging = false;
                    }
                    (EventStatus::Captured, None)
                } else {
                    (EventStatus::Ignored, None)
                }
            },
            CanvasEvent::CursorMoved { position } => self.on_cursor_moved(position, bounds),
            CanvasEvent::WheelScrolled { delta } => self.on_wheel(delta, bounds),
            CanvasEvent::Other => (EventStatus::Ignored, None),
        }
    }
}

/// What the view's cursor should look like.
#[derive(Clone, Copy, Debug, PartialEq, Eq, Structural)]
pub enum CursorHint {
    Pointer,
    Grab,
    Grabbing,
    Idle,
}

/// The cursor hint for a state: grabbing while dragging, a pointer over a
/// node or over the canvas, idle elsewhere.
pub open spec fn spec_cursor_hint(
    st: ViewportState,
    bounds: Bounds,
    locs: Seq<NodeLocation>,
) -> CursorHint {
    if st.dragging {
        CursorHint::Grabbing
    } else if exists|i: int| 0 <= i < locs.len() && spec_hit(locs[i], st, bounds) {
        CursorHint::Pointer
    } else if rat_lt(rat(0, 1), st.mouse_location.y@) {
        CursorHint::Pointer
    } else {
        CursorHint::Idle
    }
}

/// The cursor hint to show: grabbing while a drag is in progress, a pointer
/// over a hit node or over the canvas, idle otherwise.
pub fn mouse_interaction(
    state: &ViewportState,
    bounds: &Bounds,
    locations: &Vec<NodeLocation>,
) -> (r: CursorHint)
    requires
        state.wf(),
        bounds.wf(),
        forall|i: int| 0 <= i < locations@.len() ==> (#[trigger] locations@[i]).wf(),
    ensures
        state.dragging ==> r == CursorHint::Grabbing,
        !state.dragging ==> r == CursorHint::Pointer || r == CursorHint::Idle,
        calm_state(*state) && calm_bounds(*bounds) && calm_locations(locations@) ==> r
            == spec_cursor_hint(*state, *bounds, locations@),
{
    let ghost cl = calm_state(*state) && calm_bounds(*bounds) && calm_locations(locations@);
    if state.dragging {
        return CursorHint::Grabbing;
    }
    let mut i: usize = 0;
    while i < locations.len()
        invariant
            state.wf(),
            bounds.wf(),
            !state.dragging,
            cl == (calm_state(*state) && calm_bounds(*bounds) && calm_locations(locations@)),
            i <= locations@.len(),
            forall|k: int| 0 <= k < locations@.len() ==> (#[trigger] locations@[k]).wf(),
            cl ==> forall|j: int| 0 <= j < i ==> !spec_hit(locations@[j], *state, *bounds),
        decreases locations@.len() - i,
    {
        match hit_node(&locations[i], state, bounds) {
            Some(true) => {
                proof {
                    assert(spec_hit(locations@[i as int], *state, *bounds));
                }
                return CursorHint::Pointer;
            },
            Some(false) => {},
            None => {
                proof {
                    if cl {
                        assert(pixel_like(locations@[i as int].x) && pixel_like(
                            locations@[i as int].y,
                        ));
                        assert(false);
                    }
                }
            },
        }
        i += 1;
    }
    let zero = Frac { num: 0, den: 1 };
    if zero.lt(state.mouse_location.y) {
        CursorHint::Pointer
    } else {
        CursorHint::Idle
    }
}


/// One draw primitive handed to the render sink.
pub enum Primitive {
    /// A commit disc at its projected screen center.
    Node { cx: Frac, cy: Frac, radius: Frac },
    /// A text caption centered at a screen position.
    Caption { text: String, x: Frac, y: Frac, size: Frac },
    /// A straight edge between a commit and one of its parents.
    Link { fx: Frac, fy: Frac, tx: Frac, ty: Frac },
}

/// Whether a projected screen point lies outside the canvas rectangle.
pub open spec fn spec_culled(sx: Rat, sy: Rat, bounds: Bounds) -> bool {
    ||| rat_lt(rat_add(bounds.x@, bounds.width@), sx)
    ||| rat_lt(sx, bounds.x@)
    ||| rat_lt(rat_add(bounds.y@, bounds.height@), sy)
    ||| rat_lt(sy, bounds.y@)
}

/// Screen x of the projected location of the node carrying `pid`.
pub open spec fn parent_screen_x(
    g: Seq<crate::graph::SpecNode>,
    locs: Seq<NodeLocation>,
    pid: Seq<char>,
    st: ViewportState,
    bounds: Bounds,
) -> Rat {
    spec_project_x(
        locs[crate::graph::idx_of(g, pid)].x@,
        st.offset.x@,
        st.zoom@,
        bounds.width@,
    )
}

/// Screen y of the projected location of the node carrying `pid`.
pub open spec fn parent_screen_y(
    g: Seq<crate::graph::SpecNode>,
    locs: Seq<NodeLocation>,
    pid: Seq<char>,
    st: ViewportState,
    bounds: Bounds,
) -> Rat {
    spec_project_x(
        locs[crate::graph::idx_of(g, pid)].y@,
        st.offset.y@,
        st.zoom@,
        bounds.height@,
    )
}

/// The exact primitives one commit contributes: nothing when its projected
/// center leaves the canvas; otherwise its disc, its six-character caption,
/// a reference caption when it carries one, and one link per parent, with
/// endpoints pulled in by one radius — and nothing else.
pub open spec fn node_group_ok(
    seg: Seq<Primitive>,
    g: Seq<crate::graph::SpecNode>,
    locs: Seq<NodeLocation>,
    i: int,
    bounds: Bounds,
    st: ViewportState,
) -> bool {
    let sx = spec_project_x(locs[i].x@, st.offset.x@, st.zoom@, bounds.width@);
    let sy = spec_project_x(locs[i].y@, st.offset.y@, st.zoom@, bounds.height@);
    let rr = rat_mul(rat(NODE_RADIUS as int, 1), st.zoom@);
    if spec_culled(sx, sy, bounds) {
        seg.len() == 0
    } else {
        let base: int = if g[i].reference is Some {
            3
        } else {
            2
        };
        &&& seg.len() == base + g[i].parents.len()
        &&& match seg[0] {
            Primitive::Node { cx, cy, radius } => cx.wf() && cy.wf() && radius.wf() && rat_eq(
                cx@,
                sx,
            ) && rat_eq(cy@, sy) && rat_eq(radius@, rr),
            _ => false,
        }
        &&& match seg[1] {
            Primitive::Caption { text, x, y, size } => x.wf() && y.wf() && size.wf() && text@ == g[
                i].id.subrange(0, 6) && rat_eq(x@, sx) && rat_eq(y@, sy) && rat_eq(
                size@,
                rat_mul(rat(15, 1), st.zoom@),
            ),
            _ => false,
        }
        &&& (g[i].reference is Some ==> match seg[2] {
            Primitive::Caption { text, x, y, size } => x.wf() && y.wf() && size.wf() && g[
                i].reference == Some(text@) && rat_eq(x@, sx) && rat_eq(
                y@,
                rat_sub(sy, rat_mul(rat(60, 1), st.zoom@)),
            ) && rat_eq(size@, rat_mul(rat(15, 1), st.zoom@)),
            _ => false,
        })
        &&& forall|t: int| base <= t < base + g[i].parents.len() ==> match #[trigger] seg[t] {
            Primitive::Link { fx, fy, tx, ty } => fx.wf() && fy.wf() && tx.wf() && ty.wf()
                && rat_eq(fx@, rat_sub(sx, rr)) && rat_eq(fy@, sy) && rat_eq(
                tx@,
                rat_add(parent_screen_x(g, locs, g[i].parents[t - base], st, bounds), rr),
            ) && rat_eq(ty@, parent_screen_y(g, locs, g[i].parents[t - base], st, bounds)),
            _ => false,
        }
    }
}


/// The node's group with its first `k` parent links present.
pub open spec fn node_group_partial(
    seg: Seq<Primitive>,
    g: Seq<crate::graph::SpecNode>,
    locs: Seq<NodeLocation>,
    i: int,
    bounds: Bounds,
    st: ViewportState,
    k: int,
) -> bool {
    let sx = spec_project_x(locs[i].x@, st.offset.x@, st.zoom@, bounds.width@);
    let sy = spec_project_x(locs[i].y@, st.offset.y@, st.zoom@, bounds.height@);
    let rr = rat_mul(rat(NODE_RADIUS as int, 1), st.zoom@);
    let base: int = if g[i].reference is Some {
        3
    } else {
        2
    };
    &&& seg.len() == base + k
    &&& match seg[0] {
        Primitive::Node { cx, cy, radius } => cx.wf() && cy.wf() && radius.wf() && rat_eq(cx@, sx)
            && rat_eq(cy@, sy) && rat_eq(radius@, rr),
        _ => false,
    }
    &&& match seg[1] {
        Primitive::Caption { text, x, y, size } => x.wf() && y.wf() && size.wf() && text@ == g[
        i].id.subrange(0, 6) && rat_eq(x@, sx) && rat_eq(y@, sy) && rat_eq(
            size@,
            rat_mul(rat(15, 1), st.zoom@),
        ),
        _ => false,
    }
    &&& (g[i].reference is Some ==> match seg[2] {
        Primitive::Caption { text, x, y, size } => x.wf() && y.wf() && size.wf() && g[i].reference
            == Some(text@) && rat_eq(x@, sx) && rat_eq(
            y@,
            rat_sub(sy, rat_mul(rat(60, 1), st.zoom@)),
        ) && rat_eq(size@, rat_mul(rat(15, 1), st.zoom@)),
        _ => false,
    })
    &&& forall|t: int| base <= t < base + k ==> match #[trigger] seg[t] {
        Primitive::Link { fx, fy, tx, ty } => fx.wf() && fy.wf() && tx.wf() && ty.wf() && rat_eq(
            fx@,
            rat_sub(sx, rr),
        ) && rat_eq(fy@, sy) && rat_eq(
            tx@,
            rat_add(parent_screen_x(g, locs, g[i].parents[t - base], st, bounds), rr),
        ) && rat_eq(ty@, parent_screen_y(g, locs, g[i].parents[t - base], st, bounds)),
        _ => false,
    }
}

/// The primitives of one commit: empty when its projected center is culled,
/// otherwise its disc, captions and parent links, exactly.
fn node_primitives(
    graph: &CommitGraph,
    locations: &Vec<NodeLocation>,
    i: usize,
    bounds: &Bounds,
    state: &ViewportState,
) -> (r: Vec<Primitive>)
    requires
        graph.wf(),
        i < graph@.len(),
        locations@.len() == graph@.len(),
        forall|k: int|
            0 <= k < locations@.len() ==> (#[trigger] locations@[k]).wf() && locations@[k].id@
                == graph@[k].id,
        graph@[i as int].id.len() >= 6,
        state.wf(),
        bounds.wf(),
    ensures
        calm_state(*state) && calm_bounds(*bounds) && calm_locations(locations@)
            ==> node_group_ok(r@, graph@, locations@, i as int, *bounds, *state),
{
    let ghost cl = calm_state(*state) && calm_bounds(*bounds) && calm_locations(locations@);
    let ghost tsx = spec_project_x(
        locations@[i as int].x@,
        state.offset.x@,
        state.zoom@,
        bounds.width@,
    );
    let ghost tsy = spec_project_x(
        locations@[i as int].y@,
        state.offset.y@,
        state.zoom@,
        bounds.height@,
    );
    let ghost trr = rat_mul(rat(NODE_RADIUS as int, 1), state.zoom@);
    let mut out: Vec<Primitive> = Vec::new();
    let loc = &locations[i];
    let sx = match project_axis(loc.x, state.offset.x, state.zoom, bounds.width) {
        Some(v) => v,
        None => {
            proof {
                if cl {
                    assert(pixel_like(locations@[i as int].x) && pixel_like(
                        locations@[i as int].y,
                    ));
                    assert(false);
                }
            }
            return out;
        },
    };
    let sy = match project_axis(loc.y, state.offset.y, state.zoom, bounds.height) {
        Some(v) => v,
        None => {
            proof {
                if cl {
                    assert(false);
                }
            }
            return out;
        },
    };
    proof {
        if cl {
            assert(-0x2000 <= bounds.x@.n * bounds.width@.d + bounds.width@.n * bounds.x@.d
                <= 0x2000) by (nonlinear_arith)
                requires
                    -0x1000 <= bounds.x@.n <= 0x1000,
                    -0x1000 <= bounds.width@.n <= 0x1000,
                    bounds.x@.d == 1,
                    bounds.width@.d == 1,
            ;
            assert(bounds.x@.d * bounds.width@.d <= 1) by (nonlinear_arith)
                requires
                    bounds.x@.d == 1,
                    bounds.width@.d == 1,
            ;
            assert(iabs(rat_add(bounds.x@, bounds.width@).n) <= 0x2000);
            assert(-0x2000 <= bounds.y@.n * bounds.height@.d + bounds.height@.n * bounds.y@.d
                <= 0x2000) by (nonlinear_arith)
                requires
                    -0x1000 <= bounds.y@.n <= 0x1000,
                    -0x1000 <= bounds.height@.n <= 0x1000,
                    bounds.y@.d == 1,
                    bounds.height@.d == 1,
            ;
            assert(bounds.y@.d * bounds.height@.d <= 1) by (nonlinear_arith)
                requires
                    bounds.y@.d == 1,
                    bounds.height@.d == 1,
            ;
            assert(iabs(rat_add(bounds.y@, bounds.height@).n) <= 0x2000);
        }
    }
    let bxw = match bounds.x.try_add(bounds.width) {
        Some(v) => v,
        None => {
            proof {
                if cl {
                    assert(false);
                }
            }
            return out;
        },
    };
    let byh = match bounds.y.try_add(bounds.height) {
        Some(v) => v,
        None => {
            proof {
                if cl {
                    assert(false);
                }
            }
            return out;
        },
    };
    let culled = bxw.lt(sx) || sx.lt(bounds.x) || byh.lt(sy) || sy.lt(bounds.y);
    proof {
        lemma_project_pos(locations@[i as int].x@, state.offset.x@, state.zoom@, bounds.width@);
        lemma_project_pos(locations@[i as int].y@, state.offset.y@, state.zoom@, bounds.height@);
        lemma_mul_pos(bounds.x@.d, bounds.width@.d);
        lemma_mul_pos(bounds.y@.d, bounds.height@.d);
        lemma_lt_congr(bxw@, rat_add(bounds.x@, bounds.width@), sx@, tsx);
        lemma_lt_congr(sx@, tsx, bounds.x@, bounds.x@);
        lemma_lt_congr(byh@, rat_add(bounds.y@, bounds.height@), sy@, tsy);
        lemma_lt_congr(sy@, tsy, bounds.y@, bounds.y@);
        assert(culled == spec_culled(tsx, tsy, *bounds));
    }
    if culled {
        return out;
    }
    let fifty = Frac { num: 50, den: 1 };
    proof {
        if cl {
            lemma_abs_mul(fifty@.n, state.zoom@.n, 50, 0x40);
            assert(fifty@.d * state.zoom@.d <= 0x20) by (nonlinear_arith)
                requires
                    fifty@.d == 1,
                    1 <= state.zoom@.d <= 0x20,
            ;
            assert(iabs(rat_mul(fifty@, state.zoom@).n) <= 3200);
        }
    }
    let rr = match fifty.try_mul(state.zoom) {
        Some(v) => v,
        None => {
            proof {
                if cl {
                    assert(false);
                }
            }
            return out;
        },
    };
    proof {
        assert(fifty@ == rat(NODE_RADIUS as int, 1));
        lemma_mul_pos(fifty@.d, state.zoom@.d);
        lemma_mul_congr(fifty@, rat(NODE_RADIUS as int, 1), state.zoom@, state.zoom@);
        lemma_rat_trans(rr@, rat_mul(fifty@, state.zoom@), trr);
        if cl {
            assert(-3200 <= rr.num <= 3200 && 1 <= rr.den <= 0x20);
        }
    }
    let fifteen = Frac { num: 15, den: 1 };
    proof {
        if cl {
            lemma_abs_mul(fifteen@.n, state.zoom@.n, 15, 0x40);
            assert(fifteen@.d * state.zoom@.d <= 0x20) by (nonlinear_arith)
                requires
                    fifteen@.d == 1,
                    1 <= state.zoom@.d <= 0x20,
            ;
            assert(iabs(rat_mul(fifteen@, state.zoom@).n) <= 960);
        }
    }
    let size = match fifteen.try_mul(state.zoom) {
        Some(v) => v,
        None => {
            proof {
                if cl {
                    assert(false);
                }
            }
            return out;
        },
    };
    proof {
        assert(fifteen@ == rat(15, 1));
        lemma_mul_pos(fifteen@.d, state.zoom@.d);
        lemma_mul_congr(fifteen@, rat(15, 1), state.zoom@, state.zoom@);
        lemma_rat_trans(size@, rat_mul(fifteen@, state.zoom@), rat_mul(rat(15, 1), state.zoom@));
    }
    out.push(Primitive::Node { cx: sx, cy: sy, radius: rr });
    let text = graph.nodes[i].id.substring_char(0, 6).to_owned();
    out.push(Primitive::Caption { text, x: sx, y: sy, size });
    if graph.nodes[i].reference.is_some() {
        let rtext = match &graph.nodes[i].reference {
            Some(rf) => rf.clone(),
            None => {
                proof {
                    assert(false);
                }
                return out;
            },
        };
        let sixty = Frac { num: 60, den: 1 };
        proof {
            if cl {
                lemma_abs_mul(sixty@.n, state.zoom@.n, 60, 0x40);
                assert(sixty@.d * state.zoom@.d <= 0x20) by (nonlinear_arith)
                    requires
                        sixty@.d == 1,
                        1 <= state.zoom@.d <= 0x20,
                ;
                assert(iabs(rat_mul(sixty@, state.zoom@).n) <= 3840);
            }
        }
        let s60 = match sixty.try_mul(state.zoom) {
            Some(v) => v,
            None => {
                proof {
                    if cl {
                        assert(false);
                    }
                }
                return out;
            },
        };
        proof {
            assert(sixty@ == rat(60, 1));
            lemma_mul_pos(sixty@.d, state.zoom@.d);
            lemma_mul_congr(sixty@, rat(60, 1), state.zoom@, state.zoom@);
            lemma_rat_trans(s60@, rat_mul(sixty@, state.zoom@), rat_mul(rat(60, 1), state.zoom@));
            if cl {
                assert(-3840 <= s60.num <= 3840 && 1 <= s60.den <= 0x20);
                lemma_abs_mul(sy@.n, s60@.d, 0x20_0000, 0x20);
                lemma_abs_mul(s60@.n, sy@.d, 3840, 0x40);
                assert(sy@.d * s60@.d <= 0x800) by (nonlinear_arith)
                    requires
                        1 <= sy@.d <= 0x40,
                        1 <= s60@.d <= 0x20,
                ;
                assert(iabs(rat_sub(sy@, s60@).n) <= 0x800_0000);
            }
        }
        let ry = match sy.try_sub(s60) {
            Some(v) => v,
            None => {
                proof {
                    if cl {
                        assert(false);
                    }
                }
                return out;
            },
        };
        proof {
            lemma_mul_pos(sy@.d, s60@.d);
            lemma_sub_congr(sy@, tsy, s60@, rat_mul(rat(60, 1), state.zoom@));
            lemma_rat_trans(
                ry@,
                rat_sub(sy@, s60@),
                rat_sub(tsy, rat_mul(rat(60, 1), state.zoom@)),
            );
        }
        out.push(Primitive::Caption { text: rtext, x: sx, y: ry, size });
    }
    let ghost base: int = if graph@[i as int].reference is Some {
        3
    } else {
        2
    };
    let mut k: usize = 0;
    let parent_count = graph.nodes[i].parents.len();
    while k < parent_count
        invariant
            graph.wf(),
            i < graph@.len(),
            locations@.len() == graph@.len(),
            forall|t: int|
                0 <= t < locations@.len() ==> (#[trigger] locations@[t]).wf() && locations@[t].id@
                    == graph@[t].id,
            state.wf(),
            bounds.wf(),
            cl == (calm_state(*state) && calm_bounds(*bounds) && calm_locations(locations@)),
            parent_count == graph@[i as int].parents.len(),
            k <= parent_count,
            sx.wf() && rat_eq(sx@, tsx),
            sy.wf() && rat_eq(sy@, tsy),
            rr.wf() && rat_eq(rr@, trr),
            cl ==> -0x20_0000 <= sx.num <= 0x20_0000 && 1 <= sx.den <= 0x40,
            cl ==> -3200 <= rr.num <= 3200 && 1 <= rr.den <= 0x20,
            tsx == spec_project_x(
                locations@[i as int].x@,
                state.offset.x@,
                state.zoom@,
                bounds.width@,
            ),
            tsy == spec_project_x(
                locations@[i as int].y@,
                state.offset.y@,
                state.zoom@,
                bounds.height@,
            ),
            trr == rat_mul(rat(NODE_RADIUS as int, 1), state.zoom@),
            base == (if graph@[i as int].reference is Some {
                3int
            } else {
                2int
            }),
            !spec_culled(tsx, tsy, *bounds),
            cl ==> node_group_partial(
                out@,
                graph@,
                locations@,
                i as int,
                *bounds,
                *state,
                k as int,
            ),
        decreases parent_count - k,
    {
        let pid = &graph.nodes[i].parents[k];
        proof {
            assert(graph@[i as int].parents[k as int] == pid@);
            assert(crate::graph::parent_edges_wf(graph@, i as int));
            assert(crate::graph::parent_edge_wf(graph@, i as int, k as int));
        }
        let j = match graph.find_index(pid) {
            Some(j) => j,
            None => {
                proof {
                    let w = choose|w: int|
                        0 <= w < i && graph@[w].id == graph@[i as int].parents[k as int] && graph@[
                        w].children.contains(graph@[i as int].id);
                    assert(crate::graph::has_id(graph@, pid@));
                    assert(false);
                }
                return Vec::new();
            },
        };
        proof {
            crate::graph::lemma_idx_of(graph@, pid@, j as int);
        }
        let psx = match project_axis(locations[j].x, state.offset.x, state.zoom, bounds.width) {
            Some(v) => v,
            None => {
                proof {
                    if cl {
                        assert(pixel_like(locations@[j as int].x) && pixel_like(
                            locations@[j as int].y,
                        ));
                        assert(false);
                    }
                }
                return Vec::new();
            },
        };
        let psy = match project_axis(locations[j].y, state.offset.y, state.zoom, bounds.height) {
            Some(v) => v,
            None => {
                proof {
                    if cl {
                        assert(false);
                    }
                }
                return Vec::new();
            },
        };
        proof {
            if cl {
                lemma_abs_mul(sx@.n, rr@.d, 0x20_0000, 0x20);
                lemma_abs_mul(rr@.n, sx@.d, 3200, 0x40);
                assert(sx@.d * rr@.d <= 0x800) by (nonlinear_arith)
                    requires
                        1 <= sx@.d <= 0x40,
                        1 <= rr@.d <= 0x20,
                ;
                assert(iabs(rat_sub(sx@, rr@).n) <= 0x800_0000);
            }
        }
        let fx = match sx.try_sub(rr) {
            Some(v) => v,
            None => {
                proof {
                    if cl {
                        assert(false);
                    }
                }
                return Vec::new();
            },
        };
        proof {
            if cl {
                lemma_abs_mul(psx@.n, rr@.d, 0x20_0000, 0x20);
                lemma_abs_mul(rr@.n, psx@.d, 3200, 0x40);
                assert(psx@.d * rr@.d <= 0x800) by (nonlinear_arith)
                    requires
                        1 <= psx@.d <= 0x40,
                        1 <= rr@.d <= 0x20,
                ;
                assert(iabs(rat_add(psx@, rr@).n) <= 0x800_0000);
            }
        }
        let tx = match psx.try_add(rr) {
            Some(v) => v,
            None => {
                proof {
                    if cl {
                        assert(false);
                    }
                }
                return Vec::new();
            },
        };
        proof {
            lemma_mul_pos(sx@.d, rr@.d);
            lemma_sub_congr(sx@, tsx, rr@, trr);
            lemma_rat_trans(fx@, rat_sub(sx@, rr@), rat_sub(tsx, trr));
            lemma_mul_pos(psx@.d, rr@.d);
            lemma_add_congr(
                psx@,
                parent_screen_x(graph@, locations@, graph@[i as int].parents[k as int], *state, *bounds),
                rr@,
                trr,
            );
            lemma_rat_trans(
                tx@,
                rat_add(psx@, rr@),
                rat_add(
                    parent_screen_x(
                        graph@,
                        locations@,
                        graph@[i as int].parents[k as int],
                        *state,
                        *bounds,
                    ),
                    trr,
                ),
            );
        }
        let ghost prev = out@;
        out.push(Primitive::Link { fx, fy: sy, tx, ty: psy });
        proof {
            if cl {
                assert(out@ == prev.push(Primitive::Link { fx, fy: sy, tx, ty: psy }));
                assert(node_group_partial(
                    out@,
                    graph@,
                    locations@,
                    i as int,
                    *bounds,
                    *state,
                    k + 1,
                )) by {
                    assert(out@.len() == base + k + 1);
                    assert(out@[0] == prev[0] && out@[1] == prev[1]);
                    if graph@[i as int].reference is Some {
                        assert(out@[2] == prev[2]);
                    }
                    assert forall|t: int| base <= t < base + (k + 1) implies match #[trigger] out@[t] {
                        Primitive::Link { fx: lfx, fy: lfy, tx: ltx, ty: lty } => lfx.wf()
                            && lfy.wf() && ltx.wf() && lty.wf() && rat_eq(lfx@, rat_sub(tsx, trr))
                            && rat_eq(lfy@, tsy) && rat_eq(
                            ltx@,
                            rat_add(
                                parent_screen_x(
                                    graph@,
                                    locations@,
                                    graph@[i as int].parents[t - base],
                                    *state,
                                    *bounds,
                                ),
                                trr,
                            ),
                        ) && rat_eq(
                            lty@,
                            parent_screen_y(
                                graph@,
                                locations@,
                                graph@[i as int].parents[t - base],
                                *state,
                                *bounds,
                            ),
                        ),
                        _ => false,
                    } by {
                        if t < base + k {
                            assert(node_group_partial(
                                prev,
                                graph@,
                                locations@,
                                i as int,
                                *bounds,
                                *state,
                                k as int,
                            ));
                            assert(out@[t] == prev[t]);
                        } else {
                            assert(t == base + k);
                            assert(t - base == k);
                            assert(out@[t] == Primitive::Link { fx, fy: sy, tx, ty: psy });
                            assert(rat_eq(fx@, rat_sub(tsx, trr)));
                            assert(rat_eq(sy@, tsy));
                            assert(crate::graph::idx_of(graph@, graph@[i as int].parents[k as int])
                                == j as int);
                            assert(rat_eq(
                                tx@,
                                rat_add(
                                    parent_screen_x(
                                        graph@,
                                        locations@,
                                        graph@[i as int].parents[k as int],
                                        *state,
                                        *bounds,
                                    ),
                                    trr,
                                ),
                            ));
                            assert(rat_eq(
                                psy@,
                                parent_screen_y(
                                    graph@,
                                    locations@,
                                    graph@[i as int].parents[k as int],
                                    *state,
                                    *bounds,
                                ),
                            ));
                        }
                    }
                }
            }
        }
        k += 1;
    }
    proof {
        if cl {
            assert(node_group_partial(
                out@,
                graph@,
                locations@,
                i as int,
                *bounds,
                *state,
                parent_count as int,
            ));
            assert(node_group_ok(out@, graph@, locations@, i as int, *bounds, *state));
        }
    }
    out
}

/// The whole frame's draw primitives: the in-order concatenation of every
/// commit's group, each group exactly as `node_group_ok` describes on calm
/// inputs.
pub fn draw_primitives(
    graph: &CommitGraph,
    locations: &Vec<NodeLocation>,
    bounds: &Bounds,
    state: &ViewportState,
) -> (r: Vec<Primitive>)
    requires
        graph.wf(),
        locations@.len() == graph@.len(),
        forall|k: int|
            0 <= k < locations@.len() ==> (#[trigger] locations@[k]).wf() && locations@[k].id@
                == graph@[k].id,
        forall|k: int| 0 <= k < graph@.len() ==> (#[trigger] graph@[k]).id.len() >= 6,
        state.wf(),
        bounds.wf(),
    ensures
        exists|segs: Seq<Seq<Primitive>>|
            #![trigger segs.flatten()]
            segs.len() == graph@.len() && r@ == segs.flatten() && (calm_state(*state)
                && calm_bounds(*bounds) && calm_locations(locations@) ==> forall|i: int|
                0 <= i < graph@.len() ==> node_group_ok(
                    #[trigger] segs[i],
                    graph@,
                    locations@,
                    i,
                    *bounds,
                    *state,
                )),
{
    let ghost cl = calm_state(*state) && calm_bounds(*bounds) && calm_locations(locations@);
    let mut out: Vec<Primitive> = Vec::new();
    let ghost mut segs: Seq<Seq<Primitive>> = Seq::empty();
    proof {
        assert(out@ =~= segs.flatten());
    }
    let n = graph.len();
    let mut i: usize = 0;
    while i < n
        invariant
            graph.wf(),
            locations@.len() == graph@.len(),
            forall|k: int|
                0 <= k < locations@.len() ==> (#[trigger] locations@[k]).wf() && locations@[k].id@
                    == graph@[k].id,
            forall|k: int| 0 <= k < graph@.len() ==> (#[trigger] graph@[k]).id.len() >= 6,
            state.wf(),
            bounds.wf(),
            cl == (calm_state(*state) && calm_bounds(*bounds) && calm_locations(locations@)),
            n == graph@.len(),
            i <= n,
            segs.len() == i,
            out@ == segs.flatten(),
            cl ==> forall|j: int|
                0 <= j < i ==> node_group_ok(
                    #[trigger] segs[j],
                    graph@,
                    locations@,
                    j,
                    *bounds,
                    *state,
                ),
        decreases n - i,
    {
        let mut group = node_primitives(graph, locations, i, bounds, state);
        let ghost gsnap = group@;
        proof {
            segs.lemma_flatten_push(gsnap);
            segs = segs.push(gsnap);
        }
        out.append(&mut group);
        proof {
            assert(out@ =~= segs.flatten());
        }
        i += 1;
    }
    proof {
        assert(segs.len() == graph@.len() && out@ == segs.flatten() && (cl ==> forall|i: int|
            0 <= i < graph@.len() ==> node_group_ok(
                #[trigger] segs[i],
                graph@,
                locations@,
                i,
                *bounds,
                *state,
            )));
    }
    out
}

} // verus!
