use vstd::prelude::*;

use crate::layout::{anchor_offset, Anchor, ScaleMode, Stretch};

verus! {

/// Fractions of a parent's size are written in units of `1 / RATIO_ONE`.
pub const RATIO_ONE: i64 = 10000;

/// Largest magnitude of any layout value that the resolver accepts or
/// produces; a node whose values would leave this range stays unresolved.
pub const COORD_LIMIT: i64 = 1099511627776;

/// A resolved rectangle: the centre `(x, y)`, the stacking depth `z`, and the
/// size. The y axis points up.
#[derive(Clone, Copy, Debug, PartialEq, Eq, Structural)]
pub struct Rect {
    pub x: i64,
    pub y: i64,
    pub z: i64,
    pub width: i64,
    pub height: i64,
}

/// The externally writable layout attributes of a node.
#[derive(Clone, Copy, Debug, PartialEq, Eq, Structural)]
pub struct Layout {
    pub anchor: Anchor,
    pub pivot: Anchor,
    pub stretch: Stretch,
    pub scale_mode: ScaleMode,
    pub local_x: i64,
    pub local_y: i64,
    pub local_z: i64,
    pub width: i64,
    pub height: i64,
}

pub open spec fn within(v: int) -> bool {
    -COORD_LIMIT <= v <= COORD_LIMIT
}

/// Floor of half of `v`.
pub open spec fn half(v: int) -> int {
    v / 2
}

/// `v` as a fraction (in units of `RATIO_ONE`) of `size`, rounded down.
pub open spec fn ratio_of(v: int, size: int) -> int {
    (v * size) / (RATIO_ONE as int)
}

/// Scales `(w, h)` to fit `(aw, ah)` while keeping its proportions: the
/// binding axis takes the available size, the other is rounded down.
pub open spec fn aspect_fit(w: int, h: int, aw: int, ah: int) -> (int, int) {
    if aw * h <= ah * w {
        (aw, (h * aw) / w)
    } else {
        ((w * ah) / h, ah)
    }
}

/// The size of a node after its stretch rule, before its scale mode.
pub open spec fn stretched_size(s: Stretch, w: int, h: int, pw: int, ph: int) -> (int, int) {
    match s {
        Stretch::NoStretch => (w, h),
        Stretch::X { x_margin } => (pw - 2 * x_margin, h),
        Stretch::Y { y_margin } => (w, ph - 2 * y_margin),
        Stretch::XY { x_margin, y_margin, keep_aspect_ratio } => {
            if !keep_aspect_ratio {
                (pw - 2 * x_margin, ph - 2 * y_margin)
            } else if w <= 0 || h <= 0 {
                (w, h)
            } else {
                aspect_fit(w, h, pw - 2 * x_margin, ph - 2 * y_margin)
            }
        },
    }
}

pub open spec fn stretch_within(s: Stretch) -> bool {
    match s {
        Stretch::NoStretch => true,
        Stretch::X { x_margin } => within(x_margin as int),
        Stretch::Y { y_margin } => within(y_margin as int),
        Stretch::XY { x_margin, y_margin, .. } => within(x_margin as int) && within(
            y_margin as int,
        ),
    }
}

pub open spec fn layout_within(l: Layout) -> bool {
    &&& within(l.local_x as int)
    &&& within(l.local_y as int)
    &&& within(l.local_z as int)
    &&& within(l.width as int)
    &&& within(l.height as int)
    &&& stretch_within(l.stretch)
}

pub open spec fn rect_within(r: Rect) -> bool {
    &&& within(r.x as int)
    &&& within(r.y as int)
    &&& within(r.z as int)
    &&& within(r.width as int)
    &&& within(r.height as int)
}

/// The resolved size of a node in layout units, given its parent's size.
pub open spec fn resolved_size(l: Layout, pw: int, ph: int) -> (int, int) {
    let s = stretched_size(l.stretch, l.width as int, l.height as int, pw, ph);
    match l.scale_mode {
        ScaleMode::Pixel => s,
        ScaleMode::Percent => (ratio_of(s.0, pw), ratio_of(s.1, ph)),
    }
}

/// The resolved offset of a node from its anchor point on the parent.
pub open spec fn resolved_offset(l: Layout, pw: int, ph: int) -> (int, int) {
    match l.scale_mode {
        ScaleMode::Pixel => (l.local_x as int, l.local_y as int),
        ScaleMode::Percent => (ratio_of(l.local_x as int, pw), ratio_of(l.local_y as int, ph)),
    }
}

/// The unchecked placement of a node inside the parent rectangle `p`:
/// the anchor locates the origin on the parent, the offset moves it, and the
/// pivot moves the rectangle so that its pivot point lies on that origin.
pub open spec fn placement(l: Layout, p: Rect) -> (int, int, int, int, int) {
    let pw = p.width as int;
    let ph = p.height as int;
    let size = resolved_size(l, pw, ph);
    let off = resolved_offset(l, pw, ph);
    let x = p.x + half(anchor_offset(l.anchor).0 * pw) + off.0 + half(
        -anchor_offset(l.pivot).0 * size.0,
    );
    let y = p.y + half(anchor_offset(l.anchor).1 * ph) + off.1 + half(
        -anchor_offset(l.pivot).1 * size.1,
    );
    (x, y, p.z + l.local_z, size.0, size.1)
}

/// The resolved rectangle of a node inside the parent rectangle `p`, or
/// `None` where a layout value, the stretched size or a result lies outside
/// `COORD_LIMIT`.
#[verifier::opaque]
pub open spec fn place(l: Layout, p: Rect) -> Option<Rect> {
    let s = stretched_size(l.stretch, l.width as int, l.height as int, p.width as int, p.height as int);
    let q = placement(l, p);
    if layout_within(l) && within(s.0) && within(s.1) && within(q.0) && within(q.1) && within(q.2)
        && within(q.3) && within(q.4) {
        Some(Rect { x: q.0 as i64, y: q.1 as i64, z: q.2 as i64, width: q.3 as i64, height: q.4 as i64 })
    } else {
        None
    }
}

/// The frame of a root node: the viewport, centred on the origin, at depth 0.
pub open spec fn root_rect(screen_width: i64, screen_height: i64) -> Rect {
    Rect { x: 0, y: 0, z: 0, width: screen_width, height: screen_height }
}

pub(crate) const BIG: i128 = 0x100_0000_0000_0000_0000_0000_0000;

fn mul_wide(a: i128, b: i128) -> (r: i128)
    requires
        -0x10_0000_0000_0000 <= a <= 0x10_0000_0000_0000,
        -0x10_0000_0000_0000 <= b <= 0x10_0000_0000_0000,
    ensures
        r == a * b,
        -BIG <= r <= BIG,
{
    assert(-0x100_0000_0000_0000_0000_0000_0000 <= a * b <= 0x100_0000_0000_0000_0000_0000_0000)
        by (nonlinear_arith)
        requires
            -0x10_0000_0000_0000 <= a <= 0x10_0000_0000_0000,
            -0x10_0000_0000_0000 <= b <= 0x10_0000_0000_0000,
    ;
    a * b
}

/// Floor division by a positive divisor.
pub(crate) fn floor_div(v: i128, d: i128) -> (r: i128)
    requires
        d > 0,
        -BIG <= v <= BIG,
    ensures
        r == v / d,
        -BIG <= r <= BIG,
{
    assert(-BIG <= v / d <= BIG) by (nonlinear_arith)
        requires
            d > 0,
            -BIG <= v <= BIG,
    ;
    match v.checked_div_euclid(d) {
        Some(q) => q,
        None => 0,
    }
}

fn fits(v: i128) -> (r: bool)
    ensures
        r == within(v as int),
{
    -(COORD_LIMIT as i128) <= v && v <= COORD_LIMIT as i128
}

fn stretch_fits(s: Stretch) -> (r: bool)
    ensures
        r == stretch_within(s),
{
    match s {
        Stretch::NoStretch => true,
        Stretch::X { x_margin } => fits(x_margin as i128),
        Stretch::Y { y_margin } => fits(y_margin as i128),
        Stretch::XY { x_margin, y_margin, .. } => fits(x_margin as i128) && fits(y_margin as i128),
    }
}

fn aspect_fit_exec(w: i128, h: i128, aw: i128, ah: i128) -> (r: (i128, i128))
    requires
        0 < w <= COORD_LIMIT,
        0 < h <= COORD_LIMIT,
        -3 * COORD_LIMIT <= aw <= 3 * COORD_LIMIT,
        -3 * COORD_LIMIT <= ah <= 3 * COORD_LIMIT,
    ensures
        r.0 == aspect_fit(w as int, h as int, aw as int, ah as int).0,
        r.1 == aspect_fit(w as int, h as int, aw as int, ah as int).1,
{
    if mul_wide(aw, h) <= mul_wide(ah, w) {
        (aw, floor_div(mul_wide(h, aw), w))
    } else {
        (floor_div(mul_wide(w, ah), h), ah)
    }
}

fn stretch_size(s: Stretch, w: i128, h: i128, pw: i128, ph: i128) -> (r: (i128, i128))
    requires
        stretch_within(s),
        within(w as int),
        within(h as int),
        within(pw as int),
        within(ph as int),
    ensures
        r.0 == stretched_size(s, w as int, h as int, pw as int, ph as int).0,
        r.1 == stretched_size(s, w as int, h as int, pw as int, ph as int).1,
{
    match s {
        Stretch::NoStretch => (w, h),
        Stretch::X { x_margin } => (pw - 2 * (x_margin as i128), h),
        Stretch::Y { y_margin } => (w, ph - 2 * (y_margin as i128)),
        Stretch::XY { x_margin, y_margin, keep_aspect_ratio } => {
            let aw = pw - 2 * (x_margin as i128);
            let ah = ph - 2 * (y_margin as i128);
            if !keep_aspect_ratio {
                (aw, ah)
            } else if w <= 0 || h <= 0 {
                (w, h)
            } else {
                aspect_fit_exec(w, h, aw, ah)
            }
        },
    }
}

/// Scales `v` by `size` as a fraction in units of `RATIO_ONE`.
fn ratio_exec(v: i128, size: i128) -> (r: i128)
    requires
        within(v as int),
        within(size as int),
    ensures
        r == ratio_of(v as int, size as int),
        -COORD_LIMIT * COORD_LIMIT <= r <= COORD_LIMIT * COORD_LIMIT,
{
    let m = mul_wide(v, size);
    assert(-COORD_LIMIT * COORD_LIMIT <= v * size <= COORD_LIMIT * COORD_LIMIT) by (nonlinear_arith)
        requires
            within(v as int),
            within(size as int),
    ;
    floor_div(m, RATIO_ONE as i128)
}

/// `k * v` for a unit factor `k`.
fn unit_mul(k: i128, v: i128) -> (r: i128)
    requires
        -1 <= k <= 1,
        -BIG <= v <= BIG,
    ensures
        r == k * v,
        -BIG <= r <= BIG,
{
    if k == 0 {
        assert(k * v == 0) by (nonlinear_arith)
            requires
                k == 0,
        ;
        0
    } else if k == 1 {
        assert(k * v == v) by (nonlinear_arith)
            requires
                k == 1,
        ;
        v
    } else {
        assert(k * v == -v) by (nonlinear_arith)
            requires
                k == -1,
        ;
        -v
    }
}

/// Resolves the rectangle of a node with layout `l` inside the parent
/// rectangle `p`.
pub fn place_in(l: &Layout, p: &Rect) -> (r: Option<Rect>)
    requires
        rect_within(*p),
    ensures
        r == place(*l, *p),
{
    reveal(place);
    if !(fits(l.local_x as i128) && fits(l.local_y as i128) && fits(l.local_z as i128) && fits(
        l.width as i128,
    ) && fits(l.height as i128) && stretch_fits(l.stretch)) {
        return None;
    }
    let pw = p.width as i128;
    let ph = p.height as i128;
    let s = stretch_size(l.stretch, l.width as i128, l.height as i128, pw, ph);
    if !(fits(s.0) && fits(s.1)) {
        return None;
    }
    let (size_w, size_h, off_x, off_y) = match l.scale_mode {
        ScaleMode::Pixel => (s.0, s.1, l.local_x as i128, l.local_y as i128),
        ScaleMode::Percent => (
            ratio_exec(s.0, pw),
            ratio_exec(s.1, ph),
            ratio_exec(l.local_x as i128, pw),
            ratio_exec(l.local_y as i128, ph),
        ),
    };
    let (ax, ay) = l.anchor.normalized_offset();
    let (vx, vy) = l.pivot.normalized_offset();
    let ax = ax as i128;
    let ay = ay as i128;
    let vx = vx as i128;
    let vy = vy as i128;
    let x = p.x as i128 + floor_div(unit_mul(ax, pw), 2) + off_x + floor_div(unit_mul(-vx, size_w), 2);
    let y = p.y as i128 + floor_div(unit_mul(ay, ph), 2) + off_y + floor_div(unit_mul(-vy, size_h), 2);
    let z = p.z as i128 + l.local_z as i128;
    if fits(x) && fits(y) && fits(z) && fits(size_w) && fits(size_h) {
        Some(Rect { x: x as i64, y: y as i64, z: z as i64, width: size_w as i64, height: size_h as i64 })
    } else {
        None
    }
}

/// Whether the point `(x, y)` lies strictly inside the rectangle `r`.
pub open spec fn inside(r: Rect, x: int, y: int) -> bool {
    &&& 2 * x > 2 * r.x - r.width
    &&& 2 * y > 2 * r.y - r.height
    &&& 2 * x < 2 * r.x + r.width
    &&& 2 * y < 2 * r.y + r.height
}

/// A layout node: externally writable attributes, visibility flags for hit
/// testing, and the rectangle written by the resolver.
#[derive(Clone, Debug)]
pub struct UiTransform {
    pub id: String,
    pub anchor: Anchor,
    pub pivot: Anchor,
    pub stretch: Stretch,
    pub local_x: i64,
    pub local_y: i64,
    pub local_z: i64,
    pub width: i64,
    pub height: i64,
    pub scale_mode: ScaleMode,
    pub opaque: bool,
    pub transparent_target: bool,
    pub resolved: Resolved,
}

/// The rectangle that the resolver last wrote for a node. Only the resolver
/// writes it.
#[derive(Clone, Copy, Debug)]
pub struct Resolved {
    pixel: Rect,
}

impl Resolved {
    pub closed spec fn view(&self) -> Rect {
        self.pixel
    }

    pub fn get(&self) -> (r: Rect)
        ensures
            r == self@,
    {
        self.pixel
    }
}

impl UiTransform {
    /// The layout attributes of this node.
    pub open spec fn layout(&self) -> Layout {
        Layout {
            anchor: self.anchor,
            pivot: self.pivot,
            stretch: self.stretch,
            scale_mode: self.scale_mode,
            local_x: self.local_x,
            local_y: self.local_y,
            local_z: self.local_z,
            width: self.width,
            height: self.height,
        }
    }

    /// The rectangle last written by the resolver.
    pub open spec fn rect(&self) -> Rect {
        self.resolved@
    }

    /// A node of no stretch, in layout units, opaque, whose resolved
    /// rectangle starts out as its local one.
    pub fn new(
        id: String,
        anchor: Anchor,
        pivot: Anchor,
        x: i64,
        y: i64,
        z: i64,
        width: i64,
        height: i64,
    ) -> (r: UiTransform)
        ensures
            r.id == id,
            r.layout() == (Layout {
                anchor,
                pivot,
                stretch: Stretch::NoStretch,
                scale_mode: ScaleMode::Pixel,
                local_x: x,
                local_y: y,
                local_z: z,
                width,
                height,
            }),
            r.rect() == (Rect { x, y, z, width, height }),
            r.opaque,
            !r.transparent_target,
    {
        UiTransform {
            id,
            anchor,
            pivot,
            stretch: Stretch::NoStretch,
            local_x: x,
            local_y: y,
            local_z: z,
            width,
            height,
            scale_mode: ScaleMode::Pixel,
            opaque: true,
            transparent_target: false,
            resolved: Resolved { pixel: Rect { x, y, z, width, height } },
        }
    }

    /// Whether `(x, y)` lies strictly inside the local rectangle, centred on
    /// the local position.
    pub fn position_inside_local(&self, x: i64, y: i64) -> (r: bool)
        ensures
            r == inside(
                Rect {
                    x: self.local_x,
                    y: self.local_y,
                    z: self.local_z,
                    width: self.width,
                    height: self.height,
                },
                x as int,
                y as int,
            ),
    {
        let x2 = 2 * (x as i128);
        let y2 = 2 * (y as i128);
        let cx2 = 2 * (self.local_x as i128);
        let cy2 = 2 * (self.local_y as i128);
        let w = self.width as i128;
        let h = self.height as i128;
        x2 > cx2 - w && y2 > cy2 - h && x2 < cx2 + w && y2 < cy2 + h
    }

    /// Whether `(x, y)` lies strictly inside the resolved rectangle.
    pub fn position_inside(&self, x: i64, y: i64) -> (r: bool)
        ensures
            r == inside(self.rect(), x as int, y as int),
    {
        let x2 = 2 * (x as i128);
        let y2 = 2 * (y as i128);
        let cx2 = 2 * (self.resolved.pixel.x as i128);
        let cy2 = 2 * (self.resolved.pixel.y as i128);
        let w = self.resolved.pixel.width as i128;
        let h = self.resolved.pixel.height as i128;
        x2 > cx2 - w && y2 > cy2 - h && x2 < cx2 + w && y2 < cy2 + h
    }

    pub fn into_percent(self) -> (r: UiTransform)
        ensures
            r == (UiTransform { scale_mode: ScaleMode::Percent, ..self }),
    {
        let mut t = self;
        t.scale_mode = ScaleMode::Percent;
        t
    }

    pub fn into_transparent(self) -> (r: UiTransform)
        ensures
            r == (UiTransform { opaque: false, ..self }),
    {
        let mut t = self;
        t.opaque = false;
        t
    }

    pub fn with_stretch(self, stretch: Stretch) -> (r: UiTransform)
        ensures
            r == (UiTransform { stretch, ..self }),
    {
        let mut t = self;
        t.stretch = stretch;
        t
    }

    pub fn with_scale_mode(self, scale_mode: ScaleMode) -> (r: UiTransform)
        ensures
            r == (UiTransform { scale_mode, ..self }),
    {
        let mut t = self;
        t.scale_mode = scale_mode;
        t
    }

    pub fn pixel_x(&self) -> (r: i64)
        ensures
            r == self.rect().x,
    {
        self.resolved.pixel.x
    }

    pub fn pixel_y(&self) -> (r: i64)
        ensures
            r == self.rect().y,
    {
        self.resolved.pixel.y
    }

    pub fn global_z(&self) -> (r: i64)
        ensures
            r == self.rect().z,
    {
        self.resolved.pixel.z
    }

    pub fn pixel_width(&self) -> (r: i64)
        ensures
            r == self.rect().width,
    {
        self.resolved.pixel.width
    }

    pub fn pixel_height(&self) -> (r: i64)
        ensures
            r == self.rect().height,
    {
        self.resolved.pixel.height
    }

    /// The resolved rectangle as one value.
    pub fn pixel_rect(&self) -> (r: Rect)
        ensures
            r == self.rect(),
    {
        self.resolved.pixel
    }

    /// Writes the resolved rectangle; everything else stays.
    pub(crate) fn set_rect(&mut self, r: Rect)
        ensures
            final(self).rect() == r,
            final(self).layout() == old(self).layout(),
            final(self).id == old(self).id,
            final(self).opaque == old(self).opaque,
            final(self).transparent_target == old(self).transparent_target,
    {
        self.resolved = Resolved { pixel: r };
    }
}

} // verus!
