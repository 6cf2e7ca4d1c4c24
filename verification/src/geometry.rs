use vstd::prelude::*;

verus! {

/// A length in layout units.
///
/// All geometry of the library is integer valued: the host decides what one
/// unit stands for (a device pixel, a sixty-fourth of a pixel, ...).
pub type Pixels = i64;

/// The largest magnitude a single length handed to the library may have.
///
/// Every measured size, advance and offset that enters the layout stays
/// within `[-PX_LIMIT, PX_LIMIT]`; together with [`COUNT_LIMIT`] this keeps
/// every sum the layout forms inside `i64`.
pub const PX_LIMIT: i64 = 0x4000_0000;

/// The largest number of fragments, bytes, cells or lines a layout may hold.
pub const COUNT_LIMIT: usize = 0x1000_0000;

/// The largest horizontal extent a line may reach, as a constant: equal to
/// [`wide_limit`].
pub const WIDE_LIMIT: i64 = 0x0400_0000_0000_0000;

/// The largest horizontal extent a line may reach: a line of up to
/// `COUNT_LIMIT` segments of up to `PX_LIMIT` each.
pub open spec fn wide_limit() -> int {
    PX_LIMIT * COUNT_LIMIT
}

/// The largest vertical extent a layout may reach: `COUNT_LIMIT` lines of
/// up to four times `PX_LIMIT` each.
pub open spec fn tall_limit() -> int {
    4 * PX_LIMIT * COUNT_LIMIT
}

/// A coordinate within the range positions of the layout may take.
pub open spec fn coord_ok(v: int) -> bool {
    -2 * tall_limit() <= v <= 2 * tall_limit()
}

/// A length within the bounds the layout accepts from outside.
pub open spec fn px_ok(v: int) -> bool {
    -PX_LIMIT <= v <= PX_LIMIT
}

/// A non-negative length within the bounds the layout accepts from outside.
pub open spec fn extent_ok(v: int) -> bool {
    0 <= v <= PX_LIMIT
}

/// Creates a length of `v` units.
pub fn px(v: i64) -> (r: Pixels)
    ensures
        r == v,
{
    v
}

/// The larger of two lengths (the first one when they are equal).
pub open spec fn spec_px_max(a: int, b: int) -> int {
    if a >= b { a } else { b }
}

/// The smaller of two lengths (the first one when they are equal).
pub open spec fn spec_px_min(a: int, b: int) -> int {
    if a <= b { a } else { b }
}

/// The larger of two lengths.
pub fn px_max(a: Pixels, b: Pixels) -> (r: Pixels)
    ensures
        r == spec_px_max(a as int, b as int),
{
    if a >= b { a } else { b }
}

/// The smaller of two lengths.
pub fn px_min(a: Pixels, b: Pixels) -> (r: Pixels)
    ensures
        r == spec_px_min(a as int, b as int),
{
    if a <= b { a } else { b }
}

/// Quotient of `a` by a positive `d`, rounded toward zero as Rust's `/` does.
pub open spec fn trunc_div(a: int, d: int) -> int {
    if a >= 0 { a / d } else { -((-a) / d) }
}

/// Half of a length, rounded toward zero.
pub open spec fn spec_half(a: int) -> int {
    trunc_div(a, 2)
}

/// Half of a length, rounded toward zero.
pub fn px_half(a: Pixels) -> (r: Pixels)
    ensures
        r == spec_half(a as int),
{
    a / 2
}

/// A point in layout units.
#[derive(Clone, Copy, Debug, PartialEq, Eq, Structural)]
pub struct Point {
    /// Horizontal coordinate.
    pub x: Pixels,
    /// Vertical coordinate.
    pub y: Pixels,
}

impl Point {
    /// Creates a point.
    pub fn new(x: Pixels, y: Pixels) -> (r: Point)
        ensures
            r.x == x,
            r.y == y,
    {
        Point { x, y }
    }
}

/// A size in layout units.
#[derive(Clone, Copy, Debug, PartialEq, Eq, Structural)]
pub struct Size {
    /// Horizontal extent.
    pub width: Pixels,
    /// Vertical extent.
    pub height: Pixels,
}

impl Size {
    /// Creates a size.
    pub fn new(width: Pixels, height: Pixels) -> (r: Size)
        ensures
            r.width == width,
            r.height == height,
    {
        Size { width, height }
    }

    /// Both extents are non-negative and within the accepted bounds.
    pub open spec fn is_extent(self) -> bool {
        extent_ok(self.width as int) && extent_ok(self.height as int)
    }
}

/// An axis-aligned rectangle: an origin and a size.
#[derive(Clone, Copy, Debug, PartialEq, Eq, Structural)]
pub struct Bounds {
    /// Top-left corner.
    pub origin: Point,
    /// Extent of the rectangle.
    pub size: Size,
}

impl Bounds {
    /// Creates a rectangle.
    pub fn new(origin: Point, size: Size) -> (r: Bounds)
        ensures
            r.origin == origin,
            r.size == size,
    {
        Bounds { origin, size }
    }
}

/// Space offered to an element along one axis.
#[derive(Clone, Copy, Debug, PartialEq, Eq, Structural)]
pub enum AvailableSpace {
    /// A definite amount of space.
    Definite(Pixels),
    /// As little space as the content allows.
    MinContent,
    /// As much space as the content wants.
    MaxContent,
}

/// Space offered to an element along both axes.
#[derive(Clone, Copy, Debug, PartialEq, Eq, Structural)]
pub struct AvailableSize {
    /// Horizontal space.
    pub width: AvailableSpace,
    /// Vertical space.
    pub height: AvailableSpace,
}

/// Known dimensions of a box, where the layout engine has fixed them.
#[derive(Clone, Copy, Debug, PartialEq, Eq, Structural)]
pub struct KnownSize {
    /// Fixed width, if any.
    pub width: Option<Pixels>,
    /// Fixed height, if any.
    pub height: Option<Pixels>,
}


/// A copy of a vector of plain values.
pub fn copy_vec<T: Copy>(v: &Vec<T>) -> (r: Vec<T>)
    ensures
        r@ == v@,
{
    let mut out: Vec<T> = Vec::new();
    let n = v.len();
    let mut i: usize = 0;
    while i < n
        invariant
            n == v@.len(),
            i <= n,
            out@ == v@.subrange(0, i as int),
        decreases n - i,
    {
        out.push(v[i]);
        i = i + 1;
        proof {
            assert(out@ =~= v@.subrange(0, i as int));
        }
    }
    proof {
        assert(out@ =~= v@);
    }
    out
}

} // verus!
