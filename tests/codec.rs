use thumbor::codec::DecodeError;
use thumbor::ops::{FilterKind, ImageSpec, Operation, ResamplingFilter};

fn sample_spec() -> ImageSpec {
    ImageSpec::new(vec![
        Operation::new_resize(500, 800, ResamplingFilter::CatmullRom),
        Operation::new_watermark(20, 20),
        Operation::new_filter(FilterKind::Marine),
    ])
}

#[test]
fn encode_gives_exact_token() {
    let spec = ImageSpec::new(vec![Operation::new_watermark(20, 20)]);
    assert_eq!(spec.encode(), "01010000001400000014");
    let spec = ImageSpec::new(vec![Operation::new_filter(FilterKind::Marine)]);
    assert_eq!(spec.encode(), "010202");
    let spec = ImageSpec::new(vec![Operation::new_resize(500, 800, ResamplingFilter::CatmullRom)]);
    assert_eq!(spec.encode(), "0100000001f40000032002");
}

#[test]
fn empty_list_has_a_token() {
    let spec = ImageSpec::new(vec![]);
    assert_eq!(spec.encode(), "01");
    assert_eq!(ImageSpec::decode("01"), Ok(spec));
}

#[test]
fn round_trip_keeps_order() {
    let spec = sample_spec();
    let token = spec.encode();
    assert_eq!(ImageSpec::decode(&token), Ok(spec.clone()));
    let reversed = ImageSpec::new(spec.specs.iter().rev().cloned().collect());
    assert_ne!(reversed.encode(), token);
    assert_eq!(ImageSpec::decode(&reversed.encode()), Ok(reversed));
}

#[test]
fn round_trip_every_kernel_and_preset() {
    let mut ops = Vec::new();
    for f in [
        ResamplingFilter::Nearest,
        ResamplingFilter::Triangle,
        ResamplingFilter::CatmullRom,
        ResamplingFilter::Gaussian,
        ResamplingFilter::Lanczos3,
    ] {
        ops.push(Operation::new_resize(u32::MAX, 1, f));
    }
    for k in [
        FilterKind::Oceanic,
        FilterKind::Islands,
        FilterKind::Marine,
        FilterKind::Seagreen,
        FilterKind::Vintage,
    ] {
        ops.push(Operation::new_filter(k));
    }
    ops.push(Operation::new_watermark(0, u32::MAX));
    ops.push(Operation::new_watermark(0, 0));
    let spec = ImageSpec::new(ops);
    assert_eq!(ImageSpec::decode(&spec.encode()), Ok(spec));
}

#[test]
fn token_is_url_safe() {
    let token = sample_spec().encode();
    assert!(token.chars().all(|c| c.is_ascii_digit() || ('a'..='f').contains(&c)));
}

#[test]
fn rejects_empty_token() {
    assert_eq!(ImageSpec::decode(""), Err(DecodeError::Empty));
}

#[test]
fn rejects_bad_characters() {
    assert_eq!(ImageSpec::decode("0"), Err(DecodeError::InvalidEncoding));
    assert_eq!(ImageSpec::decode("01zz"), Err(DecodeError::InvalidEncoding));
    assert_eq!(ImageSpec::decode("0102FF"), Err(DecodeError::InvalidEncoding));
    assert_eq!(ImageSpec::decode("01/2"), Err(DecodeError::InvalidEncoding));
}

#[test]
fn rejects_other_version() {
    assert_eq!(ImageSpec::decode("02"), Err(DecodeError::UnsupportedVersion));
    assert_eq!(ImageSpec::decode("00010000001400000014"), Err(DecodeError::UnsupportedVersion));
}

#[test]
fn rejects_truncated_tokens() {
    let token = sample_spec().encode();
    assert_eq!(ImageSpec::decode(&token[..token.len() - 2]), Err(DecodeError::Truncated));
    assert_eq!(ImageSpec::decode("0101000000140000"), Err(DecodeError::Truncated));
    assert_eq!(ImageSpec::decode("0102"), Err(DecodeError::Truncated));
    assert_eq!(ImageSpec::decode("0100000001f400000320"), Err(DecodeError::Truncated));
}

#[test]
fn rejects_unknown_operation() {
    assert_eq!(ImageSpec::decode("0103"), Err(DecodeError::UnsupportedOperation));
    assert_eq!(ImageSpec::decode("0102020900"), Err(DecodeError::UnsupportedOperation));
    assert_eq!(ImageSpec::decode("01ff"), Err(DecodeError::UnsupportedOperation));
}

#[test]
fn rejects_out_of_range_filters() {
    assert_eq!(ImageSpec::decode("010205"), Err(DecodeError::InvalidFilter));
    assert_eq!(ImageSpec::decode("0100000001f40000032005"), Err(DecodeError::InvalidFilter));
}

#[test]
fn rejects_zero_sized_resize() {
    assert_eq!(ImageSpec::decode("0100000000000000032002"), Err(DecodeError::InvalidDimension));
    assert_eq!(ImageSpec::decode("0100000001f40000000002"), Err(DecodeError::InvalidDimension));
    let zero = ImageSpec::new(vec![Operation::new_resize(0, 10, ResamplingFilter::Nearest)]);
    assert_eq!(ImageSpec::decode(&zero.encode()), Err(DecodeError::InvalidDimension));
}
