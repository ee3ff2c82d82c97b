use vstd::prelude::*;

verus! {

/// The DXGI code of uncompressed 8-bit RGBA pixels.
pub const DXGI_FORMAT_R8G8B8A8_UNORM: u32 = 28;

/// The DXGI code of BC1 block compression.
pub const DXGI_FORMAT_BC1_UNORM: u32 = 71;

/// The DXGI code of BC3 block compression.
pub const DXGI_FORMAT_BC3_UNORM: u32 = 77;

/// Width and height of a background texture.
pub const BG_WIDTH: u32 = 1920;

/// Height of a background texture.
pub const BG_HEIGHT: u32 = 1080;

/// Width and height of a jacket texture.
pub const JK_SIZE: u32 = 300;

/// Width and height of one tile of an effect texture.
pub const FX_TILE: u32 = 256;

/// Width and height of an effect texture: two tiles by two.
pub const FX_CANVAS: u32 = 512;

/// An image of 8-bit RGBA pixels, row by row, four bytes a pixel.
pub struct RgbaImage {
    pub width: u32,
    pub height: u32,
    pub pixels: Vec<u8>,
}

impl RgbaImage {
    /// The pixel data holds exactly `width * height` pixels.
    pub open spec fn wf(&self) -> bool {
        self.pixels@.len() == self.width * self.height * 4
    }
}

/// Every pixel of `pixels` is `color` (four bytes, RGBA).
pub open spec fn all_pixels(pixels: Seq<u8>, color: Seq<u8>) -> bool {
    &&& color.len() == 4
    &&& forall|i: int| 0 <= i < pixels.len() ==> #[trigger] pixels[i] == color[i % 4]
}

/// Resizing from `width` by `height` to `new_width` by `new_height` keeps
/// one solid color: both sizes are non-empty and neither side shrinks by
/// more than a factor of 64 (each output value then averages at most a few
/// hundred inputs).
pub open spec fn keeps_solid_color(width: u32, height: u32, new_width: u32, new_height: u32) -> bool {
    &&& width > 0 && height > 0
    &&& new_width > 0 && new_height > 0
    &&& width <= 64 * new_width
    &&& height <= 64 * new_height
}

/// Resizing with the image crate's `imageops::resize` and its Lanczos3
/// filter. What holds of every outcome: the result holds
/// `new_width * new_height` pixels, and an image that already has the new
/// size is copied as it is. The resampled pixel values themselves are left
/// unsaid: the filter computes in `f32` with `f32::sin`, whose precision
/// Rust leaves to the platform, so they may differ between machines. What
/// does not depend on them: the filter divides its weights by their sum, so
/// they add up to one, and the last pass rounds to the nearest level; an
/// image of one solid color therefore comes out in that color as long as
/// each output value averages few enough inputs for the rounding error of
/// the sums to stay below half a level (`keeps_solid_color`: at most 64
/// inputs per output along each side). The
/// sizes bounded here are those of the buffers it builds and allocates: the
/// image crate computes each length as four times the width, then times the
/// height, and fails or panics when either product overflows.
#[verifier::external_body]
fn resize_lanczos3(img: &RgbaImage, new_width: u32, new_height: u32) -> (out: Vec<u8>)
    requires
        img.wf(),
        img.width * 4 <= usize::MAX,
        new_width * 4 <= usize::MAX,
        new_width * new_height * 4 <= usize::MAX,
        img.width * new_height * 4 <= usize::MAX,
    ensures
        out@.len() == new_width * new_height * 4,
        new_width == img.width && new_height == img.height ==> out@ == img.pixels@,
        keeps_solid_color(img.width, img.height, new_width, new_height) && all_pixels(
            img.pixels@,
            img.pixels@.take(4),
        ) ==> all_pixels(out@, img.pixels@.take(4)),
{
    let buffer = image::ImageBuffer::<image::Rgba<u8>, Vec<u8>>::from_raw(
        img.width,
        img.height,
        img.pixels.clone(),
    ).unwrap();
    image::imageops::resize(&buffer, new_width, new_height, image::imageops::FilterType::Lanczos3)
        .into_raw()
}

/// The buffers that resizing `img` to `width` by `height` builds and
/// allocates fit in memory: four times each width, and that times the new
/// height.
pub open spec fn resize_fits(img: RgbaImage, width: u32, height: u32) -> bool {
    &&& img.width * 4 <= usize::MAX
    &&& width * 4 <= usize::MAX
    &&& width * height * 4 <= usize::MAX
    &&& img.width * height * 4 <= usize::MAX
}

/// Brings `img` to `target_width` by `target_height`, resizing it with
/// Lanczos3 only when its size differs; an image of that size is returned
/// as it is.
pub fn resize_if_needed(img: RgbaImage, target_width: u32, target_height: u32) -> (out: RgbaImage)
    requires
        img.wf(),
        resize_fits(img, target_width, target_height),
    ensures
        out.wf(),
        out.width == target_width,
        out.height == target_height,
        img.width == target_width && img.height == target_height ==> out.pixels@ == img.pixels@,
        keeps_solid_color(img.width, img.height, target_width, target_height) && all_pixels(
            img.pixels@,
            img.pixels@.take(4),
        ) ==> all_pixels(out.pixels@, img.pixels@.take(4)),
{
    if img.width != target_width || img.height != target_height {
        let pixels = resize_lanczos3(&img, target_width, target_height);
        RgbaImage { width: target_width, height: target_height, pixels }
    } else {
        img
    }
}

/// Pixels ready for DDS compression, with the DXGI format to compress them to.
pub struct DdsJob {
    pub image: RgbaImage,
    pub format: u32,
}

impl DdsJob {
    /// Whether the pixels must be block-compressed: they are 8-bit RGBA, so
    /// any other target format needs compression.
    pub fn needs_compression(&self) -> (r: bool)
        ensures
            r == (self.format != DXGI_FORMAT_R8G8B8A8_UNORM),
    {
        self.format != DXGI_FORMAT_R8G8B8A8_UNORM
    }
}

/// Why an image could not be prepared.
#[derive(Debug, Clone, Copy, PartialEq, Eq, Structural)]
pub enum ImageError {
    /// A target width or height of zero.
    InvalidDimensions,
}

/// A target size must have a positive width and height.
pub fn validate_dimensions(width: u32, height: u32) -> (r: Result<(), ImageError>)
    ensures
        (width == 0 || height == 0) ==> r == Err::<(), ImageError>(ImageError::InvalidDimensions),
        (width > 0 && height > 0) ==> r == Ok::<(), ImageError>(()),
{
    if width == 0 || height == 0 {
        Err(ImageError::InvalidDimensions)
    } else {
        Ok(())
    }
}

/// `job` is `image` prepared for compression to `format` at `width` by
/// `height`: it has that size and format, and an image that already had
/// that size keeps its pixels (another is resized with Lanczos3).
pub open spec fn prepared_for_dds(image: RgbaImage, width: u32, height: u32, format: u32, job: DdsJob) -> bool {
    &&& job.image.wf()
    &&& job.image.width == width
    &&& job.image.height == height
    &&& job.format == format
    &&& image.width == width && image.height == height ==> job.image.pixels@ == image.pixels@
    &&& keeps_solid_color(image.width, image.height, width, height) && all_pixels(
        image.pixels@,
        image.pixels@.take(4),
    ) ==> all_pixels(job.image.pixels@, image.pixels@.take(4))
}

/// An image of one solid color, prepared at a size it keeps its color at,
/// is that color all over: its pixels come from the image's, none is made
/// up. For a jacket (300 by 300) this holds of any image of at most 19200
/// by 19200 pixels.
pub proof fn lemma_prepared_keeps_solid_color(
    image: RgbaImage,
    width: u32,
    height: u32,
    format: u32,
    job: DdsJob,
    color: Seq<u8>,
)
    requires
        image.wf(),
        prepared_for_dds(image, width, height, format, job),
        keeps_solid_color(image.width, image.height, width, height),
        all_pixels(image.pixels@, color),
    ensures
        all_pixels(job.image.pixels@, color),
{
    let p = image.pixels@;
    assert(p.len() == image.width * image.height * 4);
    assert(image.width * image.height >= 1) by (nonlinear_arith)
        requires
            image.width > 0,
            image.height > 0,
    ;
    assert forall|i: int| 0 <= i < 4 implies p.take(4)[i] == color[i] by {
        assert(p[i] == color[i % 4]);
    }
    assert(p.take(4) =~= color);
    assert forall|i: int| 0 <= i < p.len() implies #[trigger] p[i] == p.take(4)[i % 4] by {
        assert(p[i] == color[i % 4]);
    }
}

/// Prepares `image` for compression to `format` at `width` by `height`:
/// fails on a zero width or height, else brings the image to that size,
/// resizing it with Lanczos3 only when its size differs.
pub fn convert_dds(image: RgbaImage, width: u32, height: u32, format: u32) -> (r: Result<
    DdsJob,
    ImageError,
>)
    requires
        image.wf(),
        width > 0 && height > 0 ==> resize_fits(image, width, height),
    ensures
        (width == 0 || height == 0) ==> r is Err && r->Err_0 == ImageError::InvalidDimensions,
        (width > 0 && height > 0) ==> (r matches Ok(job) && prepared_for_dds(
            image,
            width,
            height,
            format,
            job,
        )),
{
    match validate_dimensions(width, height) {
        Err(e) => Err(e),
        Ok(()) => {
            let image = resize_if_needed(image, width, height);
            Ok(DdsJob { image, format })
        },
    }
}

/// Prepares a background texture: 1920 by 1080, BC1; the same as
/// `convert_dds` at that size and format.
pub fn convert_bg(image: RgbaImage) -> (r: Result<DdsJob, ImageError>)
    requires
        image.wf(),
        resize_fits(image, BG_WIDTH, BG_HEIGHT),
    ensures
        r matches Ok(job) && prepared_for_dds(image, BG_WIDTH, BG_HEIGHT, DXGI_FORMAT_BC1_UNORM, job),
{
    convert_dds(image, BG_WIDTH, BG_HEIGHT, DXGI_FORMAT_BC1_UNORM)
}

/// Prepares a jacket texture: 300 by 300, BC1; the same as `convert_dds` at
/// that size and format.
pub fn convert_jk(image: RgbaImage) -> (r: Result<DdsJob, ImageError>)
    requires
        image.wf(),
        resize_fits(image, JK_SIZE, JK_SIZE),
    ensures
        r matches Ok(job) && prepared_for_dds(image, JK_SIZE, JK_SIZE, DXGI_FORMAT_BC1_UNORM, job),
{
    convert_dds(image, JK_SIZE, JK_SIZE, DXGI_FORMAT_BC1_UNORM)
}

/// Which entries of an effect list become tiles: the present ones among the
/// first four, in order.
pub open spec fn is_fx_slot(present: Seq<bool>, i: int) -> bool {
    0 <= i < 4 && i < present.len() && present[i]
}

/// The entries from `i` on whose images become tiles: the present ones
/// among the first four, in order.
pub open spec fn fx_slots_from(present: Seq<bool>, i: int) -> Seq<usize>
    decreases 4 - i,
{
    if i < 0 || i >= 4 || i >= present.len() {
        Seq::empty()
    } else if present[i] {
        seq![i as usize] + fx_slots_from(present, i + 1)
    } else {
        fx_slots_from(present, i + 1)
    }
}

/// The entries of an effect list whose images become tiles.
pub open spec fn fx_slots(present: Seq<bool>) -> Seq<usize> {
    fx_slots_from(present, 0)
}

/// How many of the first `j` entries are present.
pub open spec fn count_present(present: Seq<bool>, j: int) -> nat
    decreases j,
{
    if j <= 0 {
        0
    } else {
        count_present(present, j - 1) + if present[j - 1] {
            1nat
        } else {
            0nat
        }
    }
}

/// The entries of an effect list whose images become tiles: those present
/// among the first four entries, in order.
pub fn fx_tile_slots(present: &[bool]) -> (slots: Vec<usize>)
    ensures
        slots@ == fx_slots(present@),
{
    let mut slots: Vec<usize> = Vec::new();
    let mut i: usize = 0;
    while i < present.len() && i < 4
        invariant
            0 <= i <= 4,
            i <= present@.len(),
            slots@ + fx_slots_from(present@, i as int) == fx_slots(present@),
        decreases 4 - i,
    {
        let ghost rest = fx_slots_from(present@, i + 1);
        if present[i] {
            assert(slots@.push(i) + rest =~= slots@ + (seq![i] + rest));
            slots.push(i);
        }
        i += 1;
    }
    assert(slots@ + Seq::<usize>::empty() =~= slots@);
    slots
}

/// The slots from `i` on lie at or after `i`, are tile entries, come in
/// increasing order, and include every tile entry at or after `i`.
proof fn lemma_fx_slots_from_shape(present: Seq<bool>, i: int)
    requires
        0 <= i,
    ensures
        ({
            let f = fx_slots_from(present, i);
            &&& i <= 4 ==> f.len() <= 4 - i
            &&& forall|k: int| 0 <= k < f.len() ==> i <= #[trigger] f[k] && is_fx_slot(present, f[k] as int)
            &&& forall|k: int, l: int| 0 <= k < l < f.len() ==> #[trigger] f[k] < #[trigger] f[l]
            &&& forall|j: int| i <= j && is_fx_slot(present, j) ==> #[trigger] f.contains(j as usize)
        }),
    decreases 4 - i,
{
    if !(i >= 4 || i >= present.len()) {
        lemma_fx_slots_from_shape(present, i + 1);
        let f = fx_slots_from(present, i);
        let g = fx_slots_from(present, i + 1);
        if present[i] {
            assert(f == seq![i as usize] + g);
            assert forall|k: int| 0 < k < f.len() implies #[trigger] f[k] == g[k - 1] by {}
            assert forall|k: int, l: int| 0 <= k < l < f.len() implies #[trigger] f[k]
                < #[trigger] f[l] by {
                assert(f[l] == g[l - 1]);
                if k > 0 {
                    assert(f[k] == g[k - 1]);
                }
            }
            assert forall|j: int| i <= j && is_fx_slot(present, j) implies #[trigger] f.contains(
                j as usize,
            ) by {
                if j == i {
                    assert(f[0] == j as usize);
                } else {
                    assert(g.contains(j as usize));
                    let m = choose|m: int| 0 <= m < g.len() && g[m] == j as usize;
                    assert(f[m + 1] == j as usize);
                }
            }
        } else {
            assert forall|j: int| i <= j && is_fx_slot(present, j) implies #[trigger] f.contains(
                j as usize,
            ) by {
                assert(j != i);
            }
        }
    }
}

/// The tile entries are at most four, are present entries among the first
/// four, come in increasing order, and include every such entry.
pub proof fn lemma_fx_slots_shape(present: Seq<bool>)
    ensures
        ({
            let f = fx_slots(present);
            &&& f.len() <= 4
            &&& forall|k: int| 0 <= k < f.len() ==> is_fx_slot(present, #[trigger] f[k] as int)
            &&& forall|k: int, l: int| 0 <= k < l < f.len() ==> #[trigger] f[k] < #[trigger] f[l]
            &&& forall|j: int| is_fx_slot(present, j) ==> #[trigger] f.contains(j as usize)
        }),
{
    lemma_fx_slots_from_shape(present, 0);
}

/// Entries after the fourth never become tiles: the tiles of a longer list
/// are those of its first four entries.
pub proof fn lemma_fx_slots_ignore_tail(present: Seq<bool>)
    requires
        present.len() > 4,
    ensures
        fx_slots(present) == fx_slots(present.take(4)),
{
    let short = present.take(4);
    assert(fx_slots_from(present, 4) == fx_slots_from(short, 4));
    assert(fx_slots_from(present, 3) == fx_slots_from(short, 3));
    assert(fx_slots_from(present, 2) == fx_slots_from(short, 2));
    assert(fx_slots_from(present, 1) == fx_slots_from(short, 1));
    assert(fx_slots_from(present, 0) == fx_slots_from(short, 0));
}

/// The `k`-th tile entry from `i` on has exactly `k` present entries between
/// `i` and it.
proof fn lemma_fx_slots_from_rank(present: Seq<bool>, i: int)
    requires
        0 <= i,
    ensures
        forall|k: int|
            0 <= k < fx_slots_from(present, i).len() ==> i <= #[trigger] fx_slots_from(present, i)[k]
                && present[fx_slots_from(present, i)[k] as int] && count_present(
                present,
                fx_slots_from(present, i)[k] as int,
            ) == count_present(present, i) + k,
    decreases 4 - i,
{
    if !(i >= 4 || i >= present.len()) {
        lemma_fx_slots_from_rank(present, i + 1);
        let f = fx_slots_from(present, i);
        let g = fx_slots_from(present, i + 1);
        assert(count_present(present, i + 1) == count_present(present, i) + if present[i] {
            1nat
        } else {
            0nat
        });
        if present[i] {
            assert(f == seq![i as usize] + g);
            assert forall|k: int| 0 <= k < f.len() implies i <= #[trigger] f[k] && present[f[k] as int]
                && count_present(present, f[k] as int) == count_present(present, i) + k by {
                if k > 0 {
                    assert(f[k] == g[k - 1]);
                }
            }
        }
    }
}

/// Tile `k` of an effect texture comes from the `k`-th present entry: the
/// entry it comes from is present, and exactly `k` present entries come
/// before it. So a missing entry takes no tile.
pub proof fn lemma_fx_slot_rank(present: Seq<bool>, k: int)
    requires
        0 <= k < fx_slots(present).len(),
    ensures
        present[fx_slots(present)[k] as int],
        count_present(present, fx_slots(present)[k] as int) == k,
{
    lemma_fx_slots_from_rank(present, 0);
    assert(count_present(present, 0) == 0);
    assert(0 <= fx_slots_from(present, 0)[k]);
}

/// Which entries of an effect list are present.
pub open spec fn presence(entries: Seq<Option<Seq<u8>>>) -> Seq<bool> {
    entries.map_values(|e: Option<Seq<u8>>| e is Some)
}

/// The tiles an effect list yields: the pixels of its tile entries
/// (`fx_slots`), in order; tile `k` of the texture is the `k`-th of them.
pub open spec fn fx_tiles_of(entries: Seq<Option<Seq<u8>>>) -> Seq<Seq<u8>> {
    fx_slots(presence(entries)).map_values(|i: usize| entries[i as int]->0)
}

/// With every entry present, the tile entries are all of them, in order.
proof fn lemma_fx_slots_all_present(present: Seq<bool>, i: int)
    requires
        present.len() <= 4,
        0 <= i <= present.len(),
        forall|j: int| 0 <= j < present.len() ==> #[trigger] present[j],
    ensures
        fx_slots_from(present, i).len() == present.len() - i,
        forall|k: int|
            0 <= k < present.len() - i ==> #[trigger] fx_slots_from(present, i)[k] == i + k,
    decreases present.len() - i,
{
    if i < present.len() {
        lemma_fx_slots_all_present(present, i + 1);
        let f = fx_slots_from(present, i);
        let g = fx_slots_from(present, i + 1);
        assert(present[i]);
        assert(f == seq![i as usize] + g);
        assert forall|k: int| 0 <= k < present.len() - i implies #[trigger] f[k] == i + k by {
            if k > 0 {
                assert(f[k] == g[k - 1]);
            }
        }
    }
}

/// An effect texture does not depend on the entries after the fourth: a
/// longer list yields the same tiles as its first four entries.
pub proof fn lemma_fx_tiles_ignore_tail(entries: Seq<Option<Seq<u8>>>)
    requires
        entries.len() > 4,
    ensures
        fx_tiles_of(entries) == fx_tiles_of(entries.take(4)),
{
    let short = entries.take(4);
    assert(presence(short) =~= presence(entries).take(4));
    lemma_fx_slots_ignore_tail(presence(entries));
    lemma_fx_slots_shape(presence(entries));
    let f = fx_slots(presence(entries));
    assert forall|k: int| 0 <= k < f.len() implies entries[#[trigger] f[k] as int] == short[f[k] as int] by {
        assert(is_fx_slot(presence(entries), f[k] as int));
    }
    assert(fx_tiles_of(entries) =~= fx_tiles_of(short));
}

/// A missing entry takes no tile: an effect list yields the same tiles as
/// the list of its present entries among the first four, in order.
pub proof fn lemma_fx_tiles_of_present(entries: Seq<Option<Seq<u8>>>)
    ensures
        fx_tiles_of(entries) == fx_tiles_of(
            fx_slots(presence(entries)).map_values(|i: usize| entries[i as int]),
        ),
{
    let f = fx_slots(presence(entries));
    let q = f.map_values(|i: usize| entries[i as int]);
    lemma_fx_slots_shape(presence(entries));
    assert forall|j: int| 0 <= j < q.len() implies #[trigger] presence(q)[j] by {
        assert(is_fx_slot(presence(entries), f[j] as int));
    }
    lemma_fx_slots_all_present(presence(q), 0);
    let g = fx_slots(presence(q));
    assert forall|k: int| 0 <= k < g.len() implies q[#[trigger] g[k] as int]->0 == entries[f[k] as int]->0 by {
        assert(g[k] == k);
    }
    assert(fx_tiles_of(entries) =~= fx_tiles_of(q));
}

/// The index of the byte of channel `c` of pixel (`x`, `y`) in an image
/// `width` pixels wide.
pub open spec fn pixel_index(width: int, x: int, y: int, c: int) -> int {
    (y * width + x) * 4 + c
}

/// The tile of the effect canvas that covers pixel (`x`, `y`): 0 top left,
/// 1 top right, 2 bottom left, 3 bottom right.
pub open spec fn fx_tile_at(x: int, y: int) -> int {
    (if y >= 256 {
        2int
    } else {
        0int
    }) + (if x >= 256 {
        1int
    } else {
        0int
    })
}

/// The left edge of tile `k` on the effect canvas.
pub open spec fn fx_tile_left(k: int) -> int {
    if k == 1 || k == 3 {
        256
    } else {
        0
    }
}

/// The top edge of tile `k` on the effect canvas.
pub open spec fn fx_tile_top(k: int) -> int {
    if k >= 2 {
        256
    } else {
        0
    }
}

/// Byte `c` of pixel (`x`, `y`) of the effect canvas: taken from the tile
/// that covers it, or 0 (transparent black) where no tile was given.
pub open spec fn fx_canvas_byte(tiles: Seq<Seq<u8>>, x: int, y: int, c: int) -> u8 {
    let k = fx_tile_at(x, y);
    if k < tiles.len() {
        tiles[k][pixel_index(256, x - fx_tile_left(k), y - fx_tile_top(k), c)]
    } else {
        0
    }
}

/// Lays up to four 256 by 256 tiles onto a 512 by 512 canvas, two by two in
/// reading order; the rest of the canvas stays transparent black.
fn compose_fx_canvas(tiles: &Vec<RgbaImage>) -> (canvas: Vec<u8>)
    requires
        tiles@.len() <= 4,
        forall|k: int|
            0 <= k < tiles@.len() ==> (#[trigger] tiles@[k]).wf() && tiles@[k].width == 256
                && tiles@[k].height == 256,
    ensures
        canvas@.len() == 512 * 512 * 4,
        forall|x: int, y: int, c: int|
            0 <= x < 512 && 0 <= y < 512 && 0 <= c < 4 ==> canvas@[#[trigger] pixel_index(512, x, y, c)]
                == fx_canvas_byte(tiles@.map_values(|t: RgbaImage| t.pixels@), x, y, c),
{
    let ghost views = tiles@.map_values(|t: RgbaImage| t.pixels@);
    let mut canvas: Vec<u8> = Vec::new();
    let mut y: usize = 0;
    while y < 512
        invariant
            y <= 512,
            views == tiles@.map_values(|t: RgbaImage| t.pixels@),
            tiles@.len() <= 4,
            forall|k: int|
                0 <= k < tiles@.len() ==> (#[trigger] tiles@[k]).wf() && tiles@[k].width == 256
                    && tiles@[k].height == 256,
            canvas@.len() == y * 512 * 4,
            forall|x: int, yy: int, c: int|
                0 <= x < 512 && 0 <= yy < y && 0 <= c < 4 ==> canvas@[#[trigger] pixel_index(512, x, yy, c)]
                    == fx_canvas_byte(views, x, yy, c),
        decreases 512 - y,
    {
        let mut x: usize = 0;
        while x < 512
            invariant
                x <= 512,
                y < 512,
                views == tiles@.map_values(|t: RgbaImage| t.pixels@),
                tiles@.len() <= 4,
                forall|k: int|
                    0 <= k < tiles@.len() ==> (#[trigger] tiles@[k]).wf() && tiles@[k].width == 256
                        && tiles@[k].height == 256,
                canvas@.len() == (y * 512 + x) * 4,
                forall|xx: int, yy: int, c: int|
                    0 <= xx < 512 && 0 <= yy < 512 && 0 <= c < 4 && (yy < y || (yy == y && xx < x))
                        ==> canvas@[#[trigger] pixel_index(512, xx, yy, c)] == fx_canvas_byte(
                        views,
                        xx,
                        yy,
                        c,
                    ),
            decreases 512 - x,
        {
            let k: usize = (if y >= 256 {
                2
            } else {
                0
            }) + (if x >= 256 {
                1
            } else {
                0
            });
            let left: usize = if k == 1 || k == 3 {
                256
            } else {
                0
            };
            let top: usize = if k >= 2 {
                256
            } else {
                0
            };
            let ghost before = canvas@;
            if k < tiles.len() {
                let src = ((y - top) * 256 + (x - left)) * 4;
                assert(views[k as int] == tiles@[k as int].pixels@);
                assert(src + 4 <= tiles@[k as int].pixels@.len()) by (nonlinear_arith)
                    requires
                        src == ((y - top) * 256 + (x - left)) * 4,
                        0 <= y - top < 256,
                        0 <= x - left < 256,
                        tiles@[k as int].pixels@.len() == 256 * 256 * 4,
                ;
                canvas.push(tiles[k].pixels[src]);
                canvas.push(tiles[k].pixels[src + 1]);
                canvas.push(tiles[k].pixels[src + 2]);
                canvas.push(tiles[k].pixels[src + 3]);
            } else {
                canvas.push(0);
                canvas.push(0);
                canvas.push(0);
                canvas.push(0);
            }
            assert forall|xx: int, yy: int, c: int|
                0 <= xx < 512 && 0 <= yy < 512 && 0 <= c < 4 && (yy < y || (yy == y && xx < x + 1))
                    implies canvas@[#[trigger] pixel_index(512, xx, yy, c)] == fx_canvas_byte(
                    views,
                    xx,
                    yy,
                    c,
                ) by {
                if yy < y || (yy == y && xx < x) {
                    assert(pixel_index(512, xx, yy, c) < before.len());
                    assert(canvas@[pixel_index(512, xx, yy, c)] == before[pixel_index(512, xx, yy, c)]);
                } else {
                    assert(xx == x && yy == y);
                    assert(pixel_index(512, xx, yy, c) == before.len() + c);
                }
            }
            x += 1;
        }
        y += 1;
    }
    canvas
}

/// Tile `k` lies on the effect canvas as it is, neither mirrored nor
/// transposed: pixel (`tx`, `ty`) of tile `k` is pixel (`left + tx`, `top +
/// ty`) of the canvas, where `left` is 256 for tiles 1 and 3 (else 0) and
/// `top` is 256 for tiles 2 and 3 (else 0); a quarter without a tile is
/// transparent black.
pub proof fn lemma_fx_canvas_places_tiles(tiles: Seq<Seq<u8>>, k: int, tx: int, ty: int, c: int)
    requires
        0 <= k < 4,
        0 <= tx < 256,
        0 <= ty < 256,
        0 <= c < 4,
    ensures
        fx_canvas_byte(
            tiles,
            (if k == 1 || k == 3 {
                256int
            } else {
                0int
            }) + tx,
            (if k >= 2 {
                256int
            } else {
                0int
            }) + ty,
            c,
        ) == if k < tiles.len() {
            tiles[k][(ty * 256 + tx) * 4 + c]
        } else {
            0u8
        },
{
}

/// On a canvas laid out as `fx_canvas_byte` says, quarter `k` holds tile `k`
/// as it is, or transparent black without a tile.
proof fn lemma_canvas_quarter(tiles: Seq<Seq<u8>>, canvas: Seq<u8>, k: int, tx: int, ty: int, c: int)
    requires
        0 <= k < 4,
        0 <= tx < 256,
        0 <= ty < 256,
        0 <= c < 4,
        forall|x: int, y: int, c: int|
            0 <= x < 512 && 0 <= y < 512 && 0 <= c < 4 ==> canvas[#[trigger] pixel_index(512, x, y, c)]
                == fx_canvas_byte(tiles, x, y, c),
    ensures
        canvas[(((if k >= 2 {
            256int
        } else {
            0int
        }) + ty) * 512 + (if k == 1 || k == 3 {
            256int
        } else {
            0int
        }) + tx) * 4 + c] == if k < tiles.len() {
            tiles[k][(ty * 256 + tx) * 4 + c]
        } else {
            0u8
        },
{
    let left: int = if k == 1 || k == 3 {
        256
    } else {
        0
    };
    let top: int = if k >= 2 {
        256
    } else {
        0
    };
    lemma_fx_canvas_places_tiles(tiles, k, tx, ty, c);
    assert(canvas[pixel_index(512, left + tx, top + ty, c)] == fx_canvas_byte(
        tiles,
        left + tx,
        top + ty,
        c,
    ));
}

/// On a canvas laid out as `fx_canvas_byte` says for these tiles, each
/// quarter holds its tile as it is, or transparent black without a tile.
proof fn lemma_fx_quarters(tiles: Seq<RgbaImage>, canvas: Seq<u8>)
    requires
        forall|x: int, y: int, c: int|
            0 <= x < 512 && 0 <= y < 512 && 0 <= c < 4 ==> canvas[#[trigger] pixel_index(512, x, y, c)]
                == fx_canvas_byte(tiles.map_values(|t: RgbaImage| t.pixels@), x, y, c),
    ensures
        forall|tx: int, ty: int, c: int|
            #![trigger pixel_index(256, tx, ty, c)]
            0 <= tx < 256 && 0 <= ty < 256 && 0 <= c < 4 ==> canvas[((ty) * 512 + tx) * 4
                + c] == (if 0 < tiles.len() {
                tiles[0].pixels@
            } else {
                Seq::new(262144, |i: int| 0u8)
            })[pixel_index(256, tx, ty, c)],
        forall|tx: int, ty: int, c: int|
            #![trigger pixel_index(256, tx, ty, c)]
            0 <= tx < 256 && 0 <= ty < 256 && 0 <= c < 4 ==> canvas[((ty) * 512 + 256 + tx) * 4
                + c] == (if 1 < tiles.len() {
                tiles[1].pixels@
            } else {
                Seq::new(262144, |i: int| 0u8)
            })[pixel_index(256, tx, ty, c)],
        forall|tx: int, ty: int, c: int|
            #![trigger pixel_index(256, tx, ty, c)]
            0 <= tx < 256 && 0 <= ty < 256 && 0 <= c < 4 ==> canvas[((256 + ty) * 512 + tx) * 4
                + c] == (if 2 < tiles.len() {
                tiles[2].pixels@
            } else {
                Seq::new(262144, |i: int| 0u8)
            })[pixel_index(256, tx, ty, c)],
        forall|tx: int, ty: int, c: int|
            #![trigger pixel_index(256, tx, ty, c)]
            0 <= tx < 256 && 0 <= ty < 256 && 0 <= c < 4 ==> canvas[((256 + ty) * 512 + 256 + tx) * 4
                + c] == (if 3 < tiles.len() {
                tiles[3].pixels@
            } else {
                Seq::new(262144, |i: int| 0u8)
            })[pixel_index(256, tx, ty, c)],
{
    let views = tiles.map_values(|t: RgbaImage| t.pixels@);
    assert forall|tx: int, ty: int, c: int|
        #![trigger pixel_index(256, tx, ty, c)]
        0 <= tx < 256 && 0 <= ty < 256 && 0 <= c < 4 implies canvas[((ty) * 512 + tx) * 4 + c]
        == (if 0 < tiles.len() {
        tiles[0].pixels@
    } else {
        Seq::new(262144, |i: int| 0u8)
    })[pixel_index(256, tx, ty, c)] by {
        lemma_canvas_quarter(views, canvas, 0, tx, ty, c);
        if 0 < tiles.len() {
            assert(views[0] == tiles[0].pixels@);
        }
    }
    assert forall|tx: int, ty: int, c: int|
        #![trigger pixel_index(256, tx, ty, c)]
        0 <= tx < 256 && 0 <= ty < 256 && 0 <= c < 4 implies canvas[((ty) * 512 + 256 + tx) * 4 + c]
        == (if 1 < tiles.len() {
        tiles[1].pixels@
    } else {
        Seq::new(262144, |i: int| 0u8)
    })[pixel_index(256, tx, ty, c)] by {
        lemma_canvas_quarter(views, canvas, 1, tx, ty, c);
        if 1 < tiles.len() {
            assert(views[1] == tiles[1].pixels@);
        }
    }
    assert forall|tx: int, ty: int, c: int|
        #![trigger pixel_index(256, tx, ty, c)]
        0 <= tx < 256 && 0 <= ty < 256 && 0 <= c < 4 implies canvas[((256 + ty) * 512 + tx) * 4 + c]
        == (if 2 < tiles.len() {
        tiles[2].pixels@
    } else {
        Seq::new(262144, |i: int| 0u8)
    })[pixel_index(256, tx, ty, c)] by {
        lemma_canvas_quarter(views, canvas, 2, tx, ty, c);
        if 2 < tiles.len() {
            assert(views[2] == tiles[2].pixels@);
        }
    }
    assert forall|tx: int, ty: int, c: int|
        #![trigger pixel_index(256, tx, ty, c)]
        0 <= tx < 256 && 0 <= ty < 256 && 0 <= c < 4 implies canvas[((256 + ty) * 512 + 256 + tx) * 4 + c]
        == (if 3 < tiles.len() {
        tiles[3].pixels@
    } else {
        Seq::new(262144, |i: int| 0u8)
    })[pixel_index(256, tx, ty, c)] by {
        lemma_canvas_quarter(views, canvas, 3, tx, ty, c);
        if 3 < tiles.len() {
            assert(views[3] == tiles[3].pixels@);
        }
    }
}

/// Lays the tiles of an effect texture (at most four, each already 256 by
/// 256) onto a 512 by 512 canvas, two by two in reading order: tile `k`
/// fills quarter `k`, and the quarters without a tile stay transparent
/// black. The result is to be compressed to BC3.
pub fn convert_fx(tiles: Vec<RgbaImage>) -> (job: DdsJob)
    requires
        tiles@.len() <= 4,
        forall|k: int|
            0 <= k < tiles@.len() ==> (#[trigger] tiles@[k]).wf() && tiles@[k].width == FX_TILE
                && tiles@[k].height == FX_TILE,
    ensures
        job.format == DXGI_FORMAT_BC3_UNORM,
        job.image.wf(),
        job.image.width == FX_CANVAS,
        job.image.height == FX_CANVAS,
        forall|x: int, y: int, c: int|
            0 <= x < 512 && 0 <= y < 512 && 0 <= c < 4 ==> job.image.pixels@[#[trigger] pixel_index(
                512,
                x,
                y,
                c,
            )] == fx_canvas_byte(tiles@.map_values(|t: RgbaImage| t.pixels@), x, y, c),
        forall|tx: int, ty: int, c: int|
            #![trigger pixel_index(256, tx, ty, c)]
            0 <= tx < 256 && 0 <= ty < 256 && 0 <= c < 4 ==> job.image.pixels@[((ty) * 512 + tx) * 4
                + c] == (if 0 < tiles@.len() {
                tiles@[0].pixels@
            } else {
                Seq::new(262144, |i: int| 0u8)
            })[pixel_index(256, tx, ty, c)],
        forall|tx: int, ty: int, c: int|
            #![trigger pixel_index(256, tx, ty, c)]
            0 <= tx < 256 && 0 <= ty < 256 && 0 <= c < 4 ==> job.image.pixels@[((ty) * 512 + 256 + tx) * 4
                + c] == (if 1 < tiles@.len() {
                tiles@[1].pixels@
            } else {
                Seq::new(262144, |i: int| 0u8)
            })[pixel_index(256, tx, ty, c)],
        forall|tx: int, ty: int, c: int|
            #![trigger pixel_index(256, tx, ty, c)]
            0 <= tx < 256 && 0 <= ty < 256 && 0 <= c < 4 ==> job.image.pixels@[((256 + ty) * 512 + tx) * 4
                + c] == (if 2 < tiles@.len() {
                tiles@[2].pixels@
            } else {
                Seq::new(262144, |i: int| 0u8)
            })[pixel_index(256, tx, ty, c)],
        forall|tx: int, ty: int, c: int|
            #![trigger pixel_index(256, tx, ty, c)]
            0 <= tx < 256 && 0 <= ty < 256 && 0 <= c < 4 ==> job.image.pixels@[((256 + ty) * 512 + 256 + tx) * 4
                + c] == (if 3 < tiles@.len() {
                tiles@[3].pixels@
            } else {
                Seq::new(262144, |i: int| 0u8)
            })[pixel_index(256, tx, ty, c)],
{
    let canvas = compose_fx_canvas(&tiles);
    let job = DdsJob {
        image: RgbaImage { width: FX_CANVAS, height: FX_CANVAS, pixels: canvas },
        format: DXGI_FORMAT_BC3_UNORM,
    };
    let ghost views = tiles@.map_values(|t: RgbaImage| t.pixels@);
    proof {
        lemma_fx_quarters(tiles@, job.image.pixels@);
    }
    job
}

/// Whether the image crate's `guess_format` recognizes the magic bytes that
/// `header` starts with.
pub uninterp spec fn known_image_signature(header: Seq<u8>) -> bool;

/// The image crate's `guess_format`, which tells by the leading magic bytes
/// whether the data starts like an image it knows; only whether it
/// recognized one is kept.
#[verifier::external_body]
fn guess_format_recognizes(header: &[u8]) -> (r: bool)
    ensures
        r == known_image_signature(header@),
{
    image::guess_format(header).is_ok()
}

/// The UTF-8 bytes of "tga".
proof fn lemma_tga_utf8()
    ensures
        vstd::utf8::encode_utf8(seq!['t', 'g', 'a']) == seq![0x74u8, 0x67u8, 0x61u8],
{
    let s3: Seq<char> = seq!['t', 'g', 'a'];
    let s2: Seq<char> = seq!['g', 'a'];
    let s1: Seq<char> = seq!['a'];
    assert(s3.drop_first() =~= s2);
    assert(s2.drop_first() =~= s1);
    assert(s1.drop_first() =~= Seq::<char>::empty());
    assert(s3[0] as u32 == 0x74u32);
    assert(s2[0] as u32 == 0x67u32);
    assert(s1[0] as u32 == 0x61u32);
    assert((0x74u32 & 0x7Fu32) as u8 == 0x74u8) by (bit_vector);
    assert((0x67u32 & 0x7Fu32) as u8 == 0x67u8) by (bit_vector);
    assert((0x61u32 & 0x7Fu32) as u8 == 0x61u8) by (bit_vector);
    assert(vstd::utf8::encode_utf8(Seq::<char>::empty()) =~= Seq::<u8>::empty());
    assert(vstd::utf8::encode_utf8(s1) =~= seq![0x61u8]);
    assert(vstd::utf8::encode_utf8(s2) =~= seq![0x67u8, 0x61u8]);
    assert(vstd::utf8::encode_utf8(s3) =~= seq![0x74u8, 0x67u8, 0x61u8]);
}

/// Whether a file extension is exactly "tga": TGA files carry no magic bytes,
/// so they are accepted without looking at their contents.
pub fn is_tga_extension(extension: Option<&str>) -> (r: bool)
    ensures
        r == (extension matches Some(e) && e@ == seq!['t', 'g', 'a']),
{
    match extension {
        None => false,
        Some(e) => {
            let bytes = e.as_bytes();
            let ghost tga: Seq<char> = seq!['t', 'g', 'a'];
            proof {
                lemma_tga_utf8();
                vstd::utf8::encode_utf8_decode_utf8(e@);
                vstd::utf8::encode_utf8_decode_utf8(tga);
            }
            let r = bytes.len() == 3 && bytes[0] == 0x74 && bytes[1] == 0x67 && bytes[2] == 0x61;
            if r {
                assert(bytes@ =~= seq![0x74u8, 0x67u8, 0x61u8]);
            }
            r
        },
    }
}


/// The verdict on whether a file is an image the converter can take.
#[derive(Debug, Clone, Copy, PartialEq, Eq, Structural)]
pub enum ImageCheck {
    /// It is.
    Valid,
    /// Its leading bytes are not those of a known image format.
    Invalid,
    /// Its first 32 bytes are needed to tell.
    NeedsHeader,
}

/// Whether a file is an image the converter can take. A file with the
/// extension "tga" is accepted without reading it, since TGA carries no
/// magic bytes; any other file needs its first 32 bytes (`header`), and is
/// accepted when they start like an image format the image crate knows.
pub fn is_valid_image(extension: Option<&str>, header: Option<&[u8]>) -> (r: ImageCheck)
    ensures
        (extension matches Some(e) && e@ == seq!['t', 'g', 'a']) ==> r == ImageCheck::Valid,
        !(extension matches Some(e) && e@ == seq!['t', 'g', 'a']) ==> r == match header {
            None => ImageCheck::NeedsHeader,
            Some(h) => if known_image_signature(h@) {
                ImageCheck::Valid
            } else {
                ImageCheck::Invalid
            },
        },
{
    if is_tga_extension(extension) {
        return ImageCheck::Valid;
    }
    match header {
        None => ImageCheck::NeedsHeader,
        Some(h) => if guess_format_recognizes(h) {
            ImageCheck::Valid
        } else {
            ImageCheck::Invalid
        },
    }
}

} // verus!
