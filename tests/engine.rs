use std::io::Cursor;
use thumbor::engine::{process, ApplyError, Engine, ImageDecodeError, OutputFormat, ProcessError, Raster};
use thumbor::ops::{FilterKind, ImageSpec, Operation, ResamplingFilter};

fn gradient(width: u32, height: u32) -> Raster {
    let mut px = Vec::new();
    for y in 0..height {
        for x in 0..width {
            px.extend_from_slice(&[(x % 256) as u8, (y % 256) as u8, ((x + y) % 256) as u8, 255]);
        }
    }
    Raster::from_rgba(width, height, px).unwrap()
}

fn jpeg_bytes(width: u32, height: u32) -> Vec<u8> {
    let img = image::RgbImage::from_fn(width, height, |x, y| {
        image::Rgb([(x % 256) as u8, (y % 256) as u8, 128])
    });
    let mut out = Cursor::new(Vec::new());
    img.write_to(&mut out, image::ImageFormat::Jpeg).unwrap();
    out.into_inner()
}

fn solid(width: u32, height: u32, rgba: [u8; 4]) -> Raster {
    let px: Vec<u8> = (0..width * height).flat_map(|_| rgba).collect();
    Raster::from_rgba(width, height, px).unwrap()
}

#[test]
fn from_rgba_checks_shape() {
    assert!(Raster::from_rgba(2, 2, vec![0; 16]).is_some());
    assert!(Raster::from_rgba(2, 2, vec![0; 15]).is_none());
    assert!(Raster::from_rgba(0, 2, vec![]).is_none());
    assert!(Raster::from_rgba(2, 0, vec![]).is_none());
}

#[test]
fn default_watermark_is_half_white() {
    let m = Raster::default_watermark();
    assert_eq!((m.width(), m.height()), (64, 64));
    assert_eq!(&m.pixels()[0..8], &[255, 255, 255, 128, 255, 255, 255, 128]);
}

#[test]
fn color_filter_tints_colour_channels() {
    let mut e = Engine::with_watermark(solid(1, 1, [200, 100, 50, 77]), Raster::default_watermark());
    e.apply(&ImageSpec::new(vec![Operation::new_filter(FilterKind::Marine)])).unwrap();
    // (tint * 90 + value * 165) / 255 per colour channel; alpha kept
    assert_eq!(e.image().pixels(), &vec![129, 69, 74, 77]);
}

#[test]
fn watermark_blends_and_clips() {
    let mark = solid(2, 2, [0, 0, 0, 255]);
    let mut e = Engine::with_watermark(solid(3, 3, [200, 200, 200, 255]), mark);
    e.apply(&ImageSpec::new(vec![Operation::new_watermark(2, 1)])).unwrap();
    let px = e.image().pixels();
    let at = |x: usize, y: usize| px[4 * (y * 3 + x)..4 * (y * 3 + x) + 4].to_vec();
    assert_eq!(at(2, 1), vec![0, 0, 0, 255]);
    assert_eq!(at(2, 2), vec![0, 0, 0, 255]);
    assert_eq!(at(1, 1), vec![200, 200, 200, 255]);
    assert_eq!(at(2, 0), vec![200, 200, 200, 255]);
    assert_eq!(px.len(), 36);
}

#[test]
fn watermark_half_opacity() {
    let mut e = Engine::with_watermark(solid(1, 1, [0, 0, 0, 0]), Raster::default_watermark());
    e.apply(&ImageSpec::new(vec![Operation::new_watermark(0, 0)])).unwrap();
    assert_eq!(e.image().pixels(), &vec![128, 128, 128, 128]);
}

#[test]
fn watermark_outside_changes_nothing() {
    let src = gradient(10, 10);
    let mut e = Engine::with_watermark(gradient(10, 10), Raster::default_watermark());
    e.apply(&ImageSpec::new(vec![Operation::new_watermark(10, 0)])).unwrap();
    assert_eq!(e.image().pixels(), src.pixels());
}

#[test]
fn resize_gives_requested_size() {
    let mut e = Engine::with_watermark(gradient(40, 30), Raster::default_watermark());
    e.apply(&ImageSpec::new(vec![Operation::new_resize(7, 11, ResamplingFilter::Lanczos3)])).unwrap();
    assert_eq!((e.image().width(), e.image().height()), (7, 11));
    assert_eq!(e.image().pixels().len(), 7 * 11 * 4);
}

#[test]
fn operations_apply_in_order() {
    let spec_a = ImageSpec::new(vec![
        Operation::new_resize(100, 100, ResamplingFilter::Triangle),
        Operation::new_watermark(10, 10),
    ]);
    let spec_b = ImageSpec::new(vec![
        Operation::new_watermark(10, 10),
        Operation::new_resize(100, 100, ResamplingFilter::Triangle),
    ]);
    let mut a = Engine::with_watermark(gradient(400, 300), Raster::default_watermark());
    let mut b = Engine::with_watermark(gradient(400, 300), Raster::default_watermark());
    a.apply(&spec_a).unwrap();
    b.apply(&spec_b).unwrap();
    assert_eq!((a.image().width(), a.image().height()), (100, 100));
    assert_eq!((b.image().width(), b.image().height()), (100, 100));
    assert_ne!(a.image().pixels(), b.image().pixels());
}

#[test]
fn empty_pipeline_is_identity() {
    let src = gradient(33, 17);
    let mut e = Engine::with_watermark(gradient(33, 17), Raster::default_watermark());
    e.apply(&ImageSpec::new(vec![])).unwrap();
    assert_eq!(e.image().pixels(), src.pixels());
    for format in [OutputFormat::Png, OutputFormat::WebP] {
        let bytes = e.generate(format).unwrap();
        let back = Engine::from_bytes(&bytes).unwrap();
        assert_eq!((back.image().width(), back.image().height()), (33, 17));
        assert_eq!(back.image().pixels(), src.pixels());
    }
}

#[test]
fn bad_resize_leaves_raster_untouched() {
    let src = gradient(8, 8);
    let mut e = Engine::with_watermark(gradient(8, 8), Raster::default_watermark());
    let spec = ImageSpec::new(vec![
        Operation::new_filter(FilterKind::Vintage),
        Operation::new_resize(0, 5, ResamplingFilter::Nearest),
    ]);
    assert_eq!(e.apply(&spec), Err(ApplyError::InvalidDimension));
    assert_eq!(e.image().pixels(), src.pixels());
    let spec = ImageSpec::new(vec![Operation::new_resize(u32::MAX, u32::MAX, ResamplingFilter::Nearest)]);
    assert_eq!(e.apply(&spec), Err(ApplyError::TooLarge));
    assert_eq!(e.image().pixels(), src.pixels());
}

#[test]
fn from_bytes_rejects_garbage() {
    assert_eq!(Engine::from_bytes(b"not an image at all").err(), Some(ImageDecodeError::UnsupportedFormat));
    let mut jpeg = jpeg_bytes(16, 16);
    jpeg.truncate(40);
    assert!(Engine::from_bytes(&jpeg).is_err());
}

#[test]
fn from_bytes_reads_jpeg() {
    let e = Engine::from_bytes(&jpeg_bytes(20, 10)).unwrap();
    assert_eq!((e.image().width(), e.image().height()), (20, 10));
    assert_eq!(e.image().pixels().len(), 800);
}

#[test]
fn end_to_end_jpeg_to_webp() {
    let spec = ImageSpec::new(vec![
        Operation::new_resize(500, 800, ResamplingFilter::CatmullRom),
        Operation::new_watermark(20, 20),
        Operation::new_filter(FilterKind::Marine),
    ]);
    let token = spec.encode();
    let decoded = ImageSpec::decode(&token).unwrap();
    let out = process(&jpeg_bytes(1260, 750), &decoded, OutputFormat::WebP).unwrap();
    let img = image::load_from_memory_with_format(&out, image::ImageFormat::WebP).unwrap();
    assert_eq!((img.width(), img.height()), (500, 800));
}

#[test]
fn process_reports_each_stage() {
    let ok = ImageSpec::new(vec![]);
    assert_eq!(
        process(b"garbage", &ok, OutputFormat::Png),
        Err(ProcessError::Decode(ImageDecodeError::UnsupportedFormat))
    );
    let bad = ImageSpec::new(vec![Operation::new_resize(5, 0, ResamplingFilter::Gaussian)]);
    assert_eq!(
        process(&jpeg_bytes(8, 8), &bad, OutputFormat::Png),
        Err(ProcessError::Apply(ApplyError::InvalidDimension))
    );
}

#[test]
fn encoder_refusal_is_reported() {
    let e = Engine::with_watermark(solid(16385, 1, [1, 2, 3, 255]), Raster::default_watermark());
    assert_eq!(e.generate(OutputFormat::WebP), Err(thumbor::engine::EncodeError::Encoder));
    assert!(e.generate(OutputFormat::Png).is_ok());
}

#[test]
fn exact_kernel_resizes_repeat() {
    let spec = ImageSpec::new(vec![
        Operation::new_resize(37, 23, ResamplingFilter::Triangle),
        Operation::new_watermark(3, 4),
        Operation::new_filter(FilterKind::Oceanic),
    ]);
    let src = jpeg_bytes(120, 90);
    let a = process(&src, &spec, OutputFormat::WebP).unwrap();
    let b = process(&src, &spec, OutputFormat::WebP).unwrap();
    assert_eq!(a, b);
}

#[test]
fn every_kernel_gives_requested_size() {
    for f in [
        ResamplingFilter::Nearest,
        ResamplingFilter::Triangle,
        ResamplingFilter::CatmullRom,
        ResamplingFilter::Gaussian,
        ResamplingFilter::Lanczos3,
    ] {
        let mut e = Engine::with_watermark(gradient(30, 20), Raster::default_watermark());
        e.apply(&ImageSpec::new(vec![Operation::new_resize(9, 14, f)])).unwrap();
        assert_eq!((e.image().width(), e.image().height()), (9, 14));
    }
}
