use image::RgbImage;
use vstd::prelude::*;

verus! {

/// An RGB image of the image crate, ready to be encoded.
#[verifier::external_body]
pub struct Frame {
    pub image: RgbImage,
}

/// The bytes that a frame holds, three per pixel, row by row.
pub uninterp spec fn frame_bytes(f: Frame) -> Seq<u8>;

/// The deepest recursion at which a ray is still traced.
pub const MAX_CASTING_DEPTH: usize = 4;

/// A ray cast at recursion depth `depth` that met a surface (`hit`) or not shows the background.
pub open spec fn background_shown(depth: int, hit: bool) -> bool {
    depth > MAX_CASTING_DEPTH || !hit
}

/// Tells whether a ray cast at depth `depth` ends at the background instead of being shaded.
pub fn shows_background(depth: usize, hit: bool) -> (r: bool)
    ensures
        r == background_shown(depth as int, hit),
{
    depth > MAX_CASTING_DEPTH || !hit
}

/// A ray that meets nothing shows the background at every depth, and a ray cast deeper than
/// the maximum depth shows it whatever it would meet.
pub proof fn lemma_background_cases(depth: int, hit: bool)
    ensures
        !hit ==> background_shown(depth, hit),
        depth > MAX_CASTING_DEPTH ==> background_shown(depth, hit),
        0 <= depth <= MAX_CASTING_DEPTH && hit ==> !background_shown(depth, hit),
{
}

/// The checkerboard's first colour is used on squares whose floored coordinates have an odd sum.
pub fn checker_first(a: i32, b: i32) -> (r: bool)
    requires
        i32::MIN <= a + b <= i32::MAX,
    ensures
        r == ((a + b) % 2 == 1),
{
    let s = a + b;
    s % 2 != 0
}

/// Position of pixel `(i, j)` in a row-major buffer with rows of `width` pixels.
pub fn pixel_index(i: usize, j: usize, width: usize, height: usize) -> (k: usize)
    requires
        i < width,
        j < height,
        width * height <= usize::MAX,
    ensures
        k == i + j * width,
        k < width * height,
{
    assert(i + j * width < width * height) by (nonlinear_arith)
        requires
            i < width,
            j < height,
    ;
    i + j * width
}

/// The bytes of `colors`, three per pixel, in order.
pub fn flatten_pixels(colors: &Vec<[u8; 3]>) -> (out: Vec<u8>)
    requires
        colors.len() * 3 <= usize::MAX,
    ensures
        out.len() == 3 * colors.len(),
        forall|k: int, c: int| 0 <= k < colors.len() && 0 <= c < 3 ==> out[3 * k + c] == #[trigger] colors[k][c],
{
    let mut out: Vec<u8> = Vec::new();
    let mut k: usize = 0;
    while k < colors.len()
        invariant
            colors.len() * 3 <= usize::MAX,
            k <= colors.len(),
            out.len() == 3 * k,
            forall|m: int, c: int| 0 <= m < k && 0 <= c < 3 ==> out[3 * m + c] == #[trigger] colors[m][c],
        decreases colors.len() - k,
    {
        let px = colors[k];
        out.push(px[0]);
        out.push(px[1]);
        out.push(px[2]);
        k += 1;
    }
    out
}

/// Relies on `image::ImageBuffer::from_raw`: it makes an image exactly when the buffer holds
/// at least three bytes for each of the `width` times `height` pixels, and keeps the buffer
/// as its bytes.
#[verifier::external_body]
fn rgb_from_raw(width: u32, height: u32, buf: Vec<u8>) -> (r: Option<Frame>)
    ensures
        r is Some <==> 3 * width * height <= buf.len(),
        r matches Some(f) ==> frame_bytes(f) == buf@,
{
    match RgbImage::from_raw(width, height, buf) {
        Some(image) => Some(Frame { image }),
        None => None,
    }
}

/// An image of `width` by `height` pixels from `colors`, given row by row; `None` when there
/// are fewer colours than pixels.
pub fn frame_image(width: u32, height: u32, colors: &Vec<[u8; 3]>) -> (r: Option<Frame>)
    requires
        colors.len() * 3 <= usize::MAX,
    ensures
        r is Some <==> width * height <= colors.len(),
        r matches Some(f) ==> frame_bytes(f).len() == 3 * colors.len() && forall|k: int, c: int|
            0 <= k < colors.len() && 0 <= c < 3 ==> frame_bytes(f)[3 * k + c] == #[trigger] colors[k][c],
{
    let buf = flatten_pixels(colors);
    assert(3 * width * height <= buf.len() <==> width * height <= colors.len()) by (nonlinear_arith)
        requires
            buf.len() == 3 * colors.len(),
    ;
    rgb_from_raw(width, height, buf)
}

} // verus!
