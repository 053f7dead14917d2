//! The transformation engine: an RGBA raster that operations rewrite in
//! order, read from and written to encoded image bytes.
use vstd::prelude::*;
use crate::codec::resampling_code;
use crate::ops::{valid_op, FilterKind, ImageSpec, Operation, ResamplingFilter};
use image::imageops::FilterType;
use image::{ExtendedColorType, ImageError, ImageFormat, RgbaImage};

verus! {

#[verifier::external_type_specification]
#[verifier::external_body]
pub struct ExImageError(ImageError);

/// What a resampling of `pixels` (`width` by `height`, RGBA) to `new_width`
/// by `new_height` with the kernel of the given code gives. Only the kernels
/// that `exact_kernel` admits compute with `+ - * /`, `abs`, `floor`, `ceil`
/// and `round` alone, so only for those is the result named.
pub uninterp spec fn resampled(
    pixels: Seq<u8>,
    width: u32,
    height: u32,
    new_width: u32,
    new_height: u32,
    kernel: u8,
) -> Seq<u8>;

/// The width, height and RGBA bytes read from encoded image bytes.
pub uninterp spec fn decoded_rgba(raw: Seq<u8>) -> Result<(u32, u32, Seq<u8>), ImageDecodeError>;

/// The bytes that encode an RGBA raster in the output format of the given
/// code, or `None` where the encoder refuses the raster.
pub uninterp spec fn encoded_rgba(pixels: Seq<u8>, width: u32, height: u32, format: u8) -> Option<
    Seq<u8>,
>;

/// A raster as the contracts see it: row-major RGBA bytes.
pub struct RasterModel {
    pub width: nat,
    pub height: nat,
    pub pixels: Seq<u8>,
}

/// A non-empty RGBA raster, four bytes per pixel, row by row.
pub struct Raster {
    width: u32,
    height: u32,
    pixels: Vec<u8>,
}

/// The container format of the output.
#[derive(Clone, Copy, Debug, PartialEq, Eq, Structural)]
pub enum OutputFormat {
    WebP,
    Png,
}

pub open spec fn format_code(f: OutputFormat) -> u8 {
    match f {
        OutputFormat::WebP => 0,
        OutputFormat::Png => 1,
    }
}

/// Why source bytes could not be read as a raster.
#[derive(Clone, Copy, Debug, PartialEq, Eq, Structural)]
pub enum ImageDecodeError {
    /// No supported format was recognised.
    UnsupportedFormat,
    /// The format was recognised but the data is damaged or empty.
    Corrupt,
}

/// Why a pipeline was refused before it touched the raster.
#[derive(Clone, Copy, Debug, PartialEq, Eq, Structural)]
pub enum ApplyError {
    /// A resize asks for a zero width or height.
    InvalidDimension,
    /// A resize asks for more bytes than memory can address.
    TooLarge,
}

/// The encoder failed.
#[derive(Clone, Copy, Debug, PartialEq, Eq, Structural)]
pub enum EncodeError {
    Encoder,
}

/// Why a request could not be served.
#[derive(Clone, Copy, Debug, PartialEq, Eq, Structural)]
pub enum ProcessError {
    Decode(ImageDecodeError),
    Apply(ApplyError),
    Encode(EncodeError),
}

pub open spec fn model_wf(m: RasterModel) -> bool {
    0 < m.width <= u32::MAX && 0 < m.height <= u32::MAX && m.pixels.len() == 4 * m.width
        * m.height
}

/// `src` laid over `dst` with opacity `alpha` out of 255.
pub open spec fn blend(dst: u8, src: u8, alpha: u8) -> u8 {
    ((src * alpha + dst * (255 - alpha)) / 255) as u8
}

pub open spec fn mark_covers(img: RasterModel, mark: RasterModel, x: int, y: int, p: int) -> bool {
    x <= p % (img.width as int) < x + mark.width && y <= p / (img.width as int) < y + mark.height
}

/// Where the watermark pixel that lands on image pixel `p` starts.
pub open spec fn mark_index(img: RasterModel, mark: RasterModel, x: int, y: int, p: int) -> int {
    4 * ((p / (img.width as int) - y) * mark.width + (p % (img.width as int) - x))
}

pub open spec fn watermark_byte(img: RasterModel, mark: RasterModel, x: int, y: int, i: int) -> u8 {
    let p = i / 4;
    let c = i % 4;
    if mark_covers(img, mark, x, y, p) {
        let m = mark_index(img, mark, x, y, p);
        let src: u8 = if c == 3 {
            255
        } else {
            mark.pixels[m + c]
        };
        blend(img.pixels[i], src, mark.pixels[m + 3])
    } else {
        img.pixels[i]
    }
}

/// The watermark laid over the image with its top-left corner at `(x, y)`,
/// clipped to the image.
pub open spec fn watermark_spec(img: RasterModel, mark: RasterModel, x: int, y: int) -> RasterModel {
    RasterModel {
        width: img.width,
        height: img.height,
        pixels: Seq::new(img.pixels.len(), |i: int| watermark_byte(img, mark, x, y, i)),
    }
}

/// The tint colour and its opacity for each preset.
pub open spec fn preset(kind: FilterKind) -> (u8, u8, u8, u8) {
    match kind {
        FilterKind::Oceanic => (0, 89, 173, 90),
        FilterKind::Islands => (0, 24, 95, 90),
        FilterKind::Marine => (0, 14, 119, 90),
        FilterKind::Seagreen => (0, 68, 62, 90),
        FilterKind::Vintage => (120, 70, 13, 90),
    }
}

pub open spec fn tint_channel(kind: FilterKind, c: int) -> u8 {
    if c == 0 {
        preset(kind).0
    } else if c == 1 {
        preset(kind).1
    } else {
        preset(kind).2
    }
}

/// A preset tints the colour channels and leaves alpha alone.
pub open spec fn color_filter_spec(img: RasterModel, kind: FilterKind) -> RasterModel {
    RasterModel {
        width: img.width,
        height: img.height,
        pixels: Seq::new(
            img.pixels.len(),
            |i: int|
                if i % 4 == 3 {
                    img.pixels[i]
                } else {
                    blend(img.pixels[i], tint_channel(kind, i % 4), preset(kind).3)
                },
        ),
    }
}

pub open spec fn resize_fits(width: u32, height: u32) -> bool {
    4 * width * height <= usize::MAX
}

pub open spec fn op_problem(op: Operation) -> Option<ApplyError> {
    match op {
        Operation::Resize { width, height, .. } => if !valid_op(op) {
            Some(ApplyError::InvalidDimension)
        } else if !resize_fits(width, height) {
            Some(ApplyError::TooLarge)
        } else {
            None
        },
        _ => None,
    }
}

/// The problem of the first operation that has one.
pub open spec fn pipeline_problem(ops: Seq<Operation>) -> Option<ApplyError>
    decreases ops.len(),
{
    if ops.len() == 0 {
        None
    } else if op_problem(ops[0]) is Some {
        op_problem(ops[0])
    } else {
        pipeline_problem(ops.drop_first())
    }
}

/// The kernels whose result is a function of the inputs alone. The others go
/// through `powi`, `sin` or `exp`, whose precision std leaves unspecified: it
/// may vary by platform, by release, and from one call to the next.
pub open spec fn exact_kernel(filter: ResamplingFilter) -> bool {
    match filter {
        ResamplingFilter::Nearest | ResamplingFilter::Triangle => true,
        _ => false,
    }
}

/// `after` is a raster that one operation can turn `before` into. A resize
/// gives exactly the requested size; with an exact kernel its bytes are
/// fixed too.
pub open spec fn op_step(
    before: RasterModel,
    mark: RasterModel,
    op: Operation,
    after: RasterModel,
) -> bool {
    match op {
        Operation::Resize { width, height, filter } => after.width == width as nat && after.height
            == height as nat && after.pixels.len() == 4 * width * height && (exact_kernel(filter)
            ==> after.pixels == resampled(
            before.pixels,
            before.width as u32,
            before.height as u32,
            width,
            height,
            resampling_code(filter),
        )),
        Operation::Watermark { x, y } => after == watermark_spec(before, mark, x as int, y as int),
        Operation::ColorFilter { kind } => after == color_filter_spec(before, kind),
    }
}

/// `states` runs the operations one after another, left to right: it starts
/// at `img`, and each raster is a step of the operation at its index from the
/// one before.
pub open spec fn is_run(
    img: RasterModel,
    mark: RasterModel,
    ops: Seq<Operation>,
    states: Seq<RasterModel>,
) -> bool {
    &&& states.len() == ops.len() + 1
    &&& states[0] == img
    &&& forall|i: int|
        0 <= i < ops.len() ==> op_step(states[i], mark, #[trigger] ops[i], states[i + 1])
}

/// `out` is a raster that the operations, applied one after another left to
/// right, can turn `img` into.
pub open spec fn applies(
    img: RasterModel,
    mark: RasterModel,
    ops: Seq<Operation>,
    out: RasterModel,
) -> bool {
    exists|states: Seq<RasterModel>| #[trigger] is_run(img, mark, ops, states) && states.last() == out
}

/// Every resize of the list uses an exact kernel.
pub open spec fn all_exact(ops: Seq<Operation>) -> bool {
    forall|i: int|
        0 <= i < ops.len() ==> match #[trigger] ops[i] {
            Operation::Resize { filter, .. } => exact_kernel(filter),
            _ => true,
        }
}

/// Relies on image::imageops::resize: the RGBA raster resampled to exactly
/// `new_width` by `new_height` pixels with the given kernel.
#[verifier::external_body]
fn resize_rgba(
    pixels: &Vec<u8>,
    width: u32,
    height: u32,
    new_width: u32,
    new_height: u32,
    filter: ResamplingFilter,
) -> (r: Vec<u8>)
    requires
        pixels@.len() == 4 * width * height,
        resize_fits(new_width, new_height),
    ensures
        exact_kernel(filter) ==> r@ == resampled(
            pixels@,
            width,
            height,
            new_width,
            new_height,
            resampling_code(filter),
        ),
        r@.len() == 4 * new_width * new_height,
{
    let src = RgbaImage::from_raw(width, height, pixels.clone()).unwrap();
    let kernel = match filter {
        ResamplingFilter::Nearest => FilterType::Nearest,
        ResamplingFilter::Triangle => FilterType::Triangle,
        ResamplingFilter::CatmullRom => FilterType::CatmullRom,
        ResamplingFilter::Gaussian => FilterType::Gaussian,
        ResamplingFilter::Lanczos3 => FilterType::Lanczos3,
    };
    image::imageops::resize(&src, new_width, new_height, kernel).into_raw()
}

/// Relies on image::load_from_memory and DynamicImage::to_rgba8: the format
/// is guessed from the bytes, and the image comes back as RGBA bytes.
#[verifier::external_body]
fn decode_rgba(raw: &[u8]) -> (r: Result<(u32, u32, Vec<u8>), ImageDecodeError>)
    ensures
        decoded_rgba(raw@) == match r {
            Ok((w, h, p)) => Ok::<(u32, u32, Seq<u8>), ImageDecodeError>((w, h, p@)),
            Err(e) => Err(e),
        },
{
    match image::load_from_memory(raw) {
        Ok(img) => {
            let rgba = img.to_rgba8();
            Ok((rgba.width(), rgba.height(), rgba.into_raw()))
        },
        Err(ImageError::Unsupported(_)) => Err(ImageDecodeError::UnsupportedFormat),
        Err(_) => Err(ImageDecodeError::Corrupt),
    }
}

/// Relies on image::write_buffer_with_format: the RGBA raster written in the
/// given container format.
#[verifier::external_body]
fn encode_rgba(pixels: &Vec<u8>, width: u32, height: u32, format: OutputFormat) -> (r: Result<
    Vec<u8>,
    ImageError,
>)
    requires
        pixels@.len() == 4 * width * height,
    ensures
        r is Ok <==> encoded_rgba(pixels@, width, height, format_code(format)) is Some,
        r matches Ok(v) ==> encoded_rgba(pixels@, width, height, format_code(format)) == Some(v@),
{
    let mut out = std::io::Cursor::new(Vec::new());
    let target = match format {
        OutputFormat::WebP => ImageFormat::WebP,
        OutputFormat::Png => ImageFormat::Png,
    };
    image::write_buffer_with_format(&mut out, pixels, width, height, ExtendedColorType::Rgba8, target)
        .map(|_| out.into_inner())
}

fn blend_exec(dst: u8, src: u8, alpha: u8) -> (r: u8)
    ensures
        r == blend(dst, src, alpha),
{
    let (d, s, a) = (dst as u32, src as u32, alpha as u32);
    assert(s * a + d * (255 - a) <= 255 * 255) by (nonlinear_arith)
        requires
            d <= 255,
            s <= 255,
            a <= 255,
    ;
    ((s * a + d * (255 - a)) / 255) as u8
}

fn preset_exec(kind: FilterKind) -> (r: (u8, u8, u8, u8))
    ensures
        r == preset(kind),
{
    match kind {
        FilterKind::Oceanic => (0, 89, 173, 90),
        FilterKind::Islands => (0, 24, 95, 90),
        FilterKind::Marine => (0, 14, 119, 90),
        FilterKind::Seagreen => (0, 68, 62, 90),
        FilterKind::Vintage => (120, 70, 13, 90),
    }
}

proof fn lemma_mark_index_bound(a: int, b: int, mw: int, mh: int)
    requires
        0 <= a < mh,
        0 <= b < mw,
    ensures
        4 * (a * mw + b) + 3 < 4 * mw * mh,
        0 <= a * mw,
{
    assert((a + 1) * mw <= mh * mw) by (nonlinear_arith)
        requires
            0 <= a < mh,
            0 <= b < mw,
    ;
    assert((a + 1) * mw == a * mw + mw) by (nonlinear_arith);
    assert(4 * mw * mh == 4 * (mh * mw)) by (nonlinear_arith);
    assert(0 <= a * mw) by (nonlinear_arith)
        requires
            0 <= a,
            0 <= b < mw,
    ;
}

impl Raster {
    pub closed spec fn view(&self) -> RasterModel {
        RasterModel { width: self.width as nat, height: self.height as nat, pixels: self.pixels@ }
    }

    pub open spec fn wf(&self) -> bool {
        model_wf(self@)
    }

    /// A raster from its width, height and RGBA bytes; `None` unless both
    /// sides are positive and there are exactly four bytes per pixel.
    pub fn from_rgba(width: u32, height: u32, pixels: Vec<u8>) -> (r: Option<Raster>)
        ensures
            r is Some <==> (width > 0 && height > 0 && pixels@.len() == 4 * width * height),
            r matches Some(s) ==> s.wf() && s@ == (RasterModel {
                width: width as nat,
                height: height as nat,
                pixels: pixels@,
            }),
    {
        if width == 0 || height == 0 {
            return None;
        }
        let (w, h) = (width as u128, height as u128);
        assert(w * h * 4 <= 4 * 0xffff_ffffu128 * 0xffff_ffffu128) by (nonlinear_arith)
            requires
                w <= 0xffff_ffffu128,
                h <= 0xffff_ffffu128,
        ;
        let need: u128 = w * h * 4;
        assert(need == 4 * width * height) by (nonlinear_arith)
            requires
                need == w * h * 4,
                w == width,
                h == height,
        ;
        if need != pixels.len() as u128 {
            return None;
        }
        Some(Raster { width, height, pixels })
    }

    pub fn width(&self) -> (r: u32)
        ensures
            r == self@.width,
    {
        self.width
    }

    pub fn height(&self) -> (r: u32)
        ensures
            r == self@.height,
    {
        self.height
    }

    /// The RGBA bytes, row by row.
    pub fn pixels(&self) -> (r: &Vec<u8>)
        ensures
            r@ == self@.pixels,
    {
        &self.pixels
    }

    /// The built-in watermark: a 64 by 64 square of white at half opacity.
    pub fn default_watermark() -> (r: Raster)
        ensures
            r.wf(),
            r@.width == 64 && r@.height == 64,
            forall|i: int|
                0 <= i < r@.pixels.len() ==> #[trigger] r@.pixels[i] == if i % 4 == 3 {
                    128u8
                } else {
                    255u8
                },
    {
        let mut pixels: Vec<u8> = Vec::new();
        let mut i: usize = 0;
        while i < 64 * 64 * 4
            invariant
                i <= 64 * 64 * 4,
                pixels@.len() == i,
                forall|j: int|
                    0 <= j < i ==> #[trigger] pixels@[j] == if j % 4 == 3 {
                        128u8
                    } else {
                        255u8
                    },
            decreases 64 * 64 * 4 - i,
        {
            if i % 4 == 3 {
                pixels.push(128);
            } else {
                pixels.push(255);
            }
            i = i + 1;
        }
        Raster { width: 64, height: 64, pixels }
    }

    fn resize(&self, width: u32, height: u32, filter: ResamplingFilter) -> (r: Raster)
        requires
            self.wf(),
            width > 0 && height > 0,
            resize_fits(width, height),
        ensures
            r.wf(),
            op_step(self@, self@, Operation::Resize { width, height, filter }, r@),
    {
        let pixels = resize_rgba(&self.pixels, self.width, self.height, width, height, filter);
        Raster { width, height, pixels }
    }

    fn watermark(&self, mark: &Raster, x: u32, y: u32) -> (r: Raster)
        requires
            self.wf(),
            mark.wf(),
        ensures
            r.wf(),
            r@ == watermark_spec(self@, mark@, x as int, y as int),
    {
        let w = self.width as usize;
        let mw = mark.width as usize;
        let mh = mark.height as usize;
        let xs = x as usize;
        let ys = y as usize;
        let n = self.pixels.len();
        let ml = mark.pixels.len();
        let mut out: Vec<u8> = Vec::new();
        let mut i: usize = 0;
        while i < n
            invariant
                n == self.pixels@.len(),
                ml == mark.pixels@.len(),
                self.wf(),
                mark.wf(),
                w == self.width,
                mw == mark.width,
                mh == mark.height,
                xs == x,
                ys == y,
                i <= n,
                out@.len() == i,
                forall|j: int|
                    0 <= j < i ==> #[trigger] out@[j] == watermark_byte(
                        self@,
                        mark@,
                        x as int,
                        y as int,
                        j,
                    ),
            decreases n - i,
        {
            let p = i / 4;
            let c = i % 4;
            let px = p % w;
            let py = p / w;
            let b = self.pixels[i];
            if px >= xs && px - xs < mw && py >= ys && py - ys < mh {
                proof {
                    lemma_mark_index_bound((py - ys) as int, (px - xs) as int, mw as int, mh as int);
                    assert(mark.pixels@.len() == 4 * (mw as int) * (mh as int));
                }
                let row = (py - ys) * mw;
                let m = 4 * (row + (px - xs));
                let src = if c == 3 {
                    255u8
                } else {
                    mark.pixels[m + c]
                };
                out.push(blend_exec(b, src, mark.pixels[m + 3]));
            } else {
                out.push(b);
            }
            i = i + 1;
        }
        let r = Raster { width: self.width, height: self.height, pixels: out };
        assert(r@.pixels =~= watermark_spec(self@, mark@, x as int, y as int).pixels);
        r
    }

    fn color_filter(&self, kind: FilterKind) -> (r: Raster)
        requires
            self.wf(),
        ensures
            r.wf(),
            r@ == color_filter_spec(self@, kind),
    {
        let (tr, tg, tb, strength) = preset_exec(kind);
        let n = self.pixels.len();
        let mut out: Vec<u8> = Vec::new();
        let mut i: usize = 0;
        while i < n
            invariant
                n == self.pixels@.len(),
                (tr, tg, tb, strength) == preset(kind),
                i <= n,
                out@.len() == i,
                forall|j: int|
                    0 <= j < i ==> #[trigger] out@[j] == color_filter_spec(self@, kind).pixels[j],
            decreases n - i,
        {
            let b = self.pixels[i];
            let c = i % 4;
            if c == 3 {
                out.push(b);
            } else {
                let t = if c == 0 {
                    tr
                } else if c == 1 {
                    tg
                } else {
                    tb
                };
                out.push(blend_exec(b, t, strength));
            }
            i = i + 1;
        }
        let r = Raster { width: self.width, height: self.height, pixels: out };
        assert(r@.pixels =~= color_filter_spec(self@, kind).pixels);
        r
    }
}

/// The built-in watermark: a 64 by 64 square of white at half opacity.
pub open spec fn default_mark_spec() -> RasterModel {
    RasterModel {
        width: 64,
        height: 64,
        pixels: Seq::new(
            64 * 64 * 4,
            |i: int|
                if i % 4 == 3 {
                    128u8
                } else {
                    255u8
                },
        ),
    }
}

/// The raster that decoding `raw` gives, as the contracts see it.
pub open spec fn decoded_model(raw: Seq<u8>) -> RasterModel {
    RasterModel {
        width: decoded_rgba(raw)->Ok_0.0 as nat,
        height: decoded_rgba(raw)->Ok_0.1 as nat,
        pixels: decoded_rgba(raw)->Ok_0.2,
    }
}

fn resize_size_ok(width: u32, height: u32) -> (r: bool)
    ensures
        r == resize_fits(width, height),
{
    let (w, h) = (width as u128, height as u128);
    assert(w * h * 4 <= 4 * 0xffff_ffffu128 * 0xffff_ffffu128) by (nonlinear_arith)
        requires
            w <= 0xffff_ffffu128,
            h <= 0xffff_ffffu128,
    ;
    let need: u128 = w * h * 4;
    assert(need == 4 * width * height) by (nonlinear_arith)
        requires
            need == w * h * 4,
            w == width,
            h == height,
    ;
    need <= usize::MAX as u128
}

fn problem_of(op: Operation) -> (r: Option<ApplyError>)
    ensures
        r == op_problem(op),
{
    match op {
        Operation::Resize { width, height, .. } => {
            if width == 0 || height == 0 {
                Some(ApplyError::InvalidDimension)
            } else if !resize_size_ok(width, height) {
                Some(ApplyError::TooLarge)
            } else {
                None
            }
        },
        _ => None,
    }
}

/// A raster being transformed, and the watermark that it is marked with.
pub struct Engine {
    image: Raster,
    watermark: Raster,
}

impl Engine {
    pub closed spec fn image_view(&self) -> RasterModel {
        self.image@
    }

    pub closed spec fn mark_view(&self) -> RasterModel {
        self.watermark@
    }

    pub closed spec fn wf(&self) -> bool {
        self.image.wf() && self.watermark.wf()
    }

    /// An engine over `image` that marks with `watermark`.
    pub fn with_watermark(image: Raster, watermark: Raster) -> (r: Engine)
        requires
            image.wf(),
            watermark.wf(),
        ensures
            r.wf(),
            r.image_view() == image@,
            r.mark_view() == watermark@,
    {
        Engine { image, watermark }
    }

    /// Decodes source bytes of any supported format into an engine that
    /// marks with the built-in watermark. A decoded image that is empty or
    /// whose bytes do not match its size counts as corrupt.
    pub fn from_bytes(raw: &[u8]) -> (r: Result<Engine, ImageDecodeError>)
        ensures
            match decoded_rgba(raw@) {
                Err(e) => r == Err::<Engine, ImageDecodeError>(e),
                Ok(_) => if model_wf(decoded_model(raw@)) {
                    (r matches Ok(e) && e.wf() && e.image_view() == decoded_model(raw@)
                        && e.mark_view() == default_mark_spec())
                } else {
                    r == Err::<Engine, ImageDecodeError>(ImageDecodeError::Corrupt)
                },
            },
    {
        let (width, height, pixels) = match decode_rgba(raw) {
            Ok(t) => t,
            Err(e) => {
                return Err(e);
            },
        };
        let image = match Raster::from_rgba(width, height, pixels) {
            Some(image) => image,
            None => {
                return Err(ImageDecodeError::Corrupt);
            },
        };
        let watermark = Raster::default_watermark();
        assert(watermark@.pixels =~= default_mark_spec().pixels);
        Ok(Engine { image, watermark })
    }

    /// The current raster.
    pub fn image(&self) -> (r: &Raster)
        ensures
            r@ == self.image_view(),
            self.wf() ==> r.wf(),
    {
        &self.image
    }

    /// Applies the operations in order, each to the raster that the one
    /// before it left. The whole list is checked first: if any resize asks
    /// for a zero side or for more than memory can address, the first such
    /// problem is returned and the raster is left untouched.
    pub fn apply(&mut self, spec: &ImageSpec) -> (r: Result<(), ApplyError>)
        requires
            old(self).wf(),
        ensures
            final(self).wf(),
            final(self).mark_view() == old(self).mark_view(),
            match pipeline_problem(spec@) {
                Some(e) => r == Err::<(), ApplyError>(e) && final(self).image_view() == old(
                    self,
                ).image_view(),
                None => r is Ok && applies(
                    old(self).image_view(),
                    old(self).mark_view(),
                    spec@,
                    final(self).image_view(),
                ),
            },
    {
        let n = spec.specs.len();
        let mut i: usize = 0;
        assert(spec@.skip(0) =~= spec@);
        while i < n
            invariant
                n == spec@.len(),
                i <= n,
                self.image.wf(),
                self.watermark.wf(),
                self.image@ == old(self).image@,
                self.watermark@ == old(self).watermark@,
                pipeline_problem(spec@) == pipeline_problem(spec@.skip(i as int)),
                forall|j: int| 0 <= j < i ==> op_problem(#[trigger] spec@[j]) is None,
            decreases n - i,
        {
            if let Some(e) = problem_of(spec.specs[i]) {
                return Err(e);
            }
            assert(spec@.skip(i as int).drop_first() =~= spec@.skip(i + 1));
            i = i + 1;
        }
        assert(spec@.skip(n as int).len() == 0);
        let ghost start = self.image@;
        let ghost states: Seq<RasterModel> = seq![start];
        let mut i: usize = 0;
        while i < n
            invariant
                n == spec@.len(),
                i <= n,
                forall|j: int| 0 <= j < n ==> op_problem(#[trigger] spec@[j]) is None,
                self.image.wf(),
                self.watermark.wf(),
                self.watermark@ == old(self).watermark@,
                is_run(start, self.watermark@, spec@.take(i as int), states),
                states.last() == self.image@,
            decreases n - i,
        {
            let op = spec.specs[i];
            assert(op_problem(spec@[i as int]) is None);
            let next = match op {
                Operation::Resize { width, height, filter } => self.image.resize(
                    width,
                    height,
                    filter,
                ),
                Operation::Watermark { x, y } => self.image.watermark(&self.watermark, x, y),
                Operation::ColorFilter { kind } => self.image.color_filter(kind),
            };
            self.image = next;
            i = i + 1;
            proof {
                let old_states = states;
                states = states.push(self.image@);
                assert forall|j: int| 0 <= j < i implies op_step(
                    states[j],
                    self.watermark@,
                    #[trigger] spec@.take(i as int)[j],
                    states[j + 1],
                ) by {
                    if j < i - 1 {
                        assert(spec@.take(i as int)[j] == spec@.take(i - 1)[j]);
                        assert(states[j] == old_states[j] && states[j + 1] == old_states[j + 1]);
                    }
                }
            }
        }
        assert(spec@.take(n as int) =~= spec@);
        assert(is_run(start, self.watermark@, spec@, states));
        Ok(())
    }

    /// The current raster encoded in `format`.
    pub fn generate(&self, format: OutputFormat) -> (r: Result<Vec<u8>, EncodeError>)
        requires
            self.wf(),
        ensures
            match encoded_rgba(
                self.image_view().pixels,
                self.image_view().width as u32,
                self.image_view().height as u32,
                format_code(format),
            ) {
                Some(b) => r matches Ok(v) && v@ == b,
                None => r == Err::<Vec<u8>, EncodeError>(EncodeError::Encoder),
            },
    {
        match encode_rgba(&self.image.pixels, self.image.width, self.image.height, format) {
            Ok(v) => Ok(v),
            Err(_) => Err(EncodeError::Encoder),
        }
    }
}

/// Decodes the source, applies the operations in order and encodes the
/// result: the whole of serving one request once its bytes are at hand.
pub fn process(source: &[u8], spec: &ImageSpec, format: OutputFormat) -> (r: Result<
    Vec<u8>,
    ProcessError,
>)
    ensures
        decoded_rgba(source@) matches Err(e) ==> r == Err::<Vec<u8>, ProcessError>(
            ProcessError::Decode(e),
        ),
        decoded_rgba(source@) is Ok && !model_wf(decoded_model(source@)) ==> r == Err::<
            Vec<u8>,
            ProcessError,
        >(ProcessError::Decode(ImageDecodeError::Corrupt)),
        decoded_rgba(source@) is Ok && model_wf(decoded_model(source@)) && pipeline_problem(spec@)
            is Some ==> r == Err::<Vec<u8>, ProcessError>(
            ProcessError::Apply(pipeline_problem(spec@)->Some_0),
        ),
        decoded_rgba(source@) is Ok && model_wf(decoded_model(source@)) && pipeline_problem(spec@)
            is None ==> exists|out: RasterModel|
            #[trigger] applies(decoded_model(source@), default_mark_spec(), spec@, out) && match encoded_rgba(
                out.pixels,
                out.width as u32,
                out.height as u32,
                format_code(format),
            ) {
                Some(b) => r matches Ok(v) && v@ == b,
                None => r == Err::<Vec<u8>, ProcessError>(ProcessError::Encode(EncodeError::Encoder)),
            },
{
    let mut engine = match Engine::from_bytes(source) {
        Ok(e) => e,
        Err(e) => {
            return Err(ProcessError::Decode(e));
        },
    };
    match engine.apply(spec) {
        Ok(()) => {},
        Err(e) => {
            return Err(ProcessError::Apply(e));
        },
    }
    let r = match engine.generate(format) {
        Ok(v) => Ok(v),
        Err(e) => Err(ProcessError::Encode(e)),
    };
    assert(applies(decoded_model(source@), default_mark_spec(), spec@, engine.image_view()));
    r
}

/// An empty pipeline leaves the raster exactly as it was.
pub proof fn lemma_empty_pipeline_identity(img: RasterModel, mark: RasterModel, out: RasterModel)
    requires
        applies(img, mark, Seq::<Operation>::empty(), out),
    ensures
        out == img,
        pipeline_problem(Seq::<Operation>::empty()) is None,
{
    let states = choose|states: Seq<RasterModel>| #[trigger] is_run(img, mark, Seq::<Operation>::empty(), states) && states.last() == out;
}

/// Applying a list followed by one more operation is applying the list and
/// then that operation to the raster it left.
pub proof fn lemma_apply_in_order(
    img: RasterModel,
    mark: RasterModel,
    ops: Seq<Operation>,
    op: Operation,
    mid: RasterModel,
    out: RasterModel,
)
    requires
        applies(img, mark, ops, mid),
        op_step(mid, mark, op, out),
    ensures
        applies(img, mark, ops.push(op), out),
{
    let states = choose|states: Seq<RasterModel>| #[trigger] is_run(img, mark, ops, states) && states.last() == mid;
    let longer = states.push(out);
    assert forall|i: int| 0 <= i < ops.len() + 1 implies op_step(
        longer[i],
        mark,
        #[trigger] ops.push(op)[i],
        longer[i + 1],
    ) by {
        if i < ops.len() {
            assert(ops.push(op)[i] == ops[i]);
        }
    }
    assert(is_run(img, mark, ops.push(op), longer));
}

proof fn lemma_runs_agree(
    img: RasterModel,
    mark: RasterModel,
    ops: Seq<Operation>,
    sa: Seq<RasterModel>,
    sb: Seq<RasterModel>,
    k: int,
)
    requires
        all_exact(ops),
        is_run(img, mark, ops, sa),
        is_run(img, mark, ops, sb),
        0 <= k <= ops.len(),
    ensures
        sa[k] == sb[k],
    decreases k,
{
    if k > 0 {
        lemma_runs_agree(img, mark, ops, sa, sb, k - 1);
        let op = ops[k - 1];
        assert(op_step(sa[k - 1], mark, op, sa[k]));
        assert(op_step(sb[k - 1], mark, op, sb[k]));
        if let Operation::Resize { .. } = op {
            assert(sa[k].pixels =~= sb[k].pixels);
        }
    }
}

/// Where every resize uses an exact kernel, a pipeline has one result: the
/// same raster and operations always give the same raster.
pub proof fn lemma_exact_pipeline_deterministic(
    img: RasterModel,
    mark: RasterModel,
    ops: Seq<Operation>,
    a: RasterModel,
    b: RasterModel,
)
    requires
        all_exact(ops),
        applies(img, mark, ops, a),
        applies(img, mark, ops, b),
    ensures
        a == b,
{
    let sa = choose|states: Seq<RasterModel>| #[trigger] is_run(img, mark, ops, states) && states.last() == a;
    let sb = choose|states: Seq<RasterModel>| #[trigger] is_run(img, mark, ops, states) && states.last() == b;
    lemma_runs_agree(img, mark, ops, sa, sb, ops.len() as int);
}

} // verus!
