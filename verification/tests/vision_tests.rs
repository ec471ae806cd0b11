use pero_core::aura_vision::{AuraVisionEncoder, EMBEDDING_DIM, PIXEL_COUNT};
use pero_core::errors::CoreError;
use pero_core::vector::{dot, integer_root, l2_normalize, length_squared};

const ONE: f64 = 1073741824.0;

fn to_f(x: i32) -> f64 {
    x as f64 / ONE
}

fn encoder() -> AuraVisionEncoder {
    AuraVisionEncoder::load(&vec![1, 1, 64, 64], &vec![1, 384]).unwrap()
}

#[test]
fn test_l2_normalize() {
    // 3.0 and 4.0 in units of 2^-16; the result is in units of 2^-30.
    let mut vec: Vec<i32> = vec![3 * 65536, 4 * 65536];
    AuraVisionEncoder::l2_normalize(&mut vec);

    assert!((to_f(vec[0]) - 0.6).abs() < 1e-6);
    assert!((to_f(vec[1]) - 0.8).abs() < 1e-6);

    let norm: f64 = vec.iter().map(|x| to_f(*x) * to_f(*x)).sum::<f64>().sqrt();
    assert!((norm - 1.0).abs() < 1e-6);
}

#[test]
fn test_forward_pixel_count_validation() {
    let wrong_pixels: Vec<i32> = vec![0; 100];

    assert_eq!(wrong_pixels.len(), 100);
    assert_ne!(wrong_pixels.len(), 64 * 64);

    let enc = encoder();
    assert_eq!(enc.check_pixel_count(wrong_pixels.len()), Err(CoreError::BadInputSize));
    assert_eq!(enc.check_pixel_count(64 * 64), Ok(()));
    assert_eq!(
        enc.forward_from_pixels(wrong_pixels.len(), vec![1; EMBEDDING_DIM]),
        Err(CoreError::BadInputSize)
    );
}

#[test]
fn test_sobel_edge_detect_shape() {
    let mut img: Vec<u8> = Vec::new();
    for y in 0..64u32 {
        for x in 0..64u32 {
            img.push((x as u8).wrapping_add(y as u8));
        }
    }

    let edges = AuraVisionEncoder::sobel_edge_detect(&img, 64, 64);

    assert_eq!(edges.len(), 64 * 64);
}

#[test]
fn l2_normalize_exact_values() {
    let mut v: Vec<i32> = vec![3, -4];
    l2_normalize(&mut v);
    // 3/5 and -4/5 of 2^30, rounded towards zero.
    assert_eq!(v, vec![644245094, -858993459]);
    let mut zero: Vec<i32> = vec![0, 0, 0];
    l2_normalize(&mut zero);
    assert_eq!(zero, vec![0, 0, 0]);
    let mut empty: Vec<i32> = Vec::new();
    l2_normalize(&mut empty);
    assert!(empty.is_empty());
    let mut extreme: Vec<i32> = vec![i32::MIN, i32::MAX];
    l2_normalize(&mut extreme);
    assert_eq!(extreme.len(), 2);
    assert!((to_f(extreme[0]) + 0.5f64.sqrt()).abs() < 1e-6);
}

#[test]
fn l2_normalize_is_precise_for_tiny_vectors() {
    let mut v: Vec<i32> = vec![1, 1];
    l2_normalize(&mut v);
    assert_eq!(v, vec![759250124, 759250124]);
    let mut w: Vec<i32> = vec![0, -1, 0];
    l2_normalize(&mut w);
    assert_eq!(w, vec![0, -1073741824, 0]);
    // The squared length never exceeds 1.0 and misses it by little.
    for v in [vec![1, 1], vec![1, 6], vec![-7, 3, 2], vec![i32::MAX, i32::MIN, 5]] {
        let mut u = v.clone();
        l2_normalize(&mut u);
        let s: i128 = u.iter().map(|c| (*c as i128) * (*c as i128)).sum();
        assert!(s <= 1i128 << 60);
        assert!(s + (v.len() as i128) * 0x8000_0001 >= 1i128 << 60);
    }
}

#[test]
fn l2_normalize_twice_may_differ_in_the_last_unit() {
    let mut once: Vec<i32> = vec![1, 6];
    l2_normalize(&mut once);
    assert_eq!(once, vec![176522068, 1059132410]);
    let mut twice = once.clone();
    l2_normalize(&mut twice);
    assert_eq!(twice, vec![176522068, 1059132411]);
}

#[test]
fn l2_normalize_gives_unit_norm_for_a_long_vector() {
    let mut v: Vec<i32> = (0..384).map(|i| ((i * 7919) % 2001 - 1000) * 1000).collect();
    l2_normalize(&mut v);
    let norm: f64 = v.iter().map(|x| to_f(*x) * to_f(*x)).sum::<f64>().sqrt();
    assert!((norm - 1.0).abs() < 1e-6);
    let once = v.clone();
    l2_normalize(&mut v);
    for (a, b) in once.iter().zip(v.iter()) {
        assert!((a - b).abs() <= 2);
    }
}

#[test]
fn integer_root_and_sums() {
    assert_eq!(integer_root(0), 0);
    assert_eq!(integer_root(1), 1);
    assert_eq!(integer_root(24), 4);
    assert_eq!(integer_root(25), 5);
    assert_eq!(integer_root(u128::MAX), u64::MAX as u128);
    assert_eq!(length_squared(&vec![3, -4, 12]), 169);
    assert_eq!(dot(&vec![1, -2, 3], &vec![4, 5, -6]), -24);
    assert_eq!(dot(&vec![i32::MIN], &vec![i32::MIN]), 1i128 << 62);
}

#[test]
fn model_shapes_are_checked() {
    assert!(AuraVisionEncoder::load(&vec![1, 1, 64, 64], &vec![1, 384]).is_ok());
    for (input, output) in [
        (vec![1, 3, 64, 64], vec![1, 384]),
        (vec![1, 1, 64, 64], vec![1, 512]),
        (vec![1, 1, 64], vec![1, 384]),
        (vec![1, 1, 64, 64], vec![384]),
        (vec![], vec![]),
    ] {
        match AuraVisionEncoder::load(&input, &output) {
            Err(e) => assert_eq!(e, CoreError::InvalidModelFile),
            Ok(_) => panic!("a model with other shapes was accepted"),
        }
    }
    let enc = encoder();
    assert_eq!(enc.input_shape(), &vec![1usize, 1, 64, 64]);
    assert_eq!(enc.output_dim(), 384);
}

#[test]
fn forward_checks_the_output_and_normalises_it() {
    let enc = encoder();
    assert_eq!(
        enc.forward_from_pixels(PIXEL_COUNT, vec![1; 383]),
        Err(CoreError::DimensionMismatch)
    );
    let mut output = vec![0i32; EMBEDDING_DIM];
    output[0] = 300;
    output[1] = -400;
    let embedding = enc.forward_from_pixels(PIXEL_COUNT, output).unwrap();
    assert_eq!(embedding.len(), EMBEDDING_DIM);
    assert_eq!(embedding[0], 644245094);
    assert_eq!(embedding[1], -858993459);
    assert!(embedding[2..].iter().all(|x| *x == 0));
}

#[test]
fn sobel_finds_a_vertical_edge_and_leaves_the_border_dark() {
    // 5 x 4 image: two dark columns, then three bright ones.
    let mut img: Vec<u8> = Vec::new();
    for _y in 0..4 {
        img.extend_from_slice(&[0, 0, 100, 100, 100]);
    }
    let edges = AuraVisionEncoder::sobel_edge_detect(&img, 5, 4);
    // gx = 4 * 100 at the columns next to the step, limited to 255.
    assert_eq!(
        edges,
        vec![
            0, 0, 0, 0, 0, //
            0, 255, 255, 0, 0, //
            0, 255, 255, 0, 0, //
            0, 0, 0, 0, 0,
        ]
    );
}

#[test]
fn sobel_magnitude_is_the_rounded_down_root() {
    // 3 x 3 image with one interior pixel: gx = 3 - 1 + 2 * (6 - 4) + 9 - 7 = 8,
    // gy = 7 - 1 + 2 * (8 - 2) + 9 - 3 = 24, sqrt(64 + 576) = 25.29...
    let img: Vec<u8> = vec![1, 2, 3, 4, 5, 6, 7, 8, 9];
    let edges = AuraVisionEncoder::sobel_edge_detect(&img, 3, 3);
    assert_eq!(edges, vec![0, 0, 0, 0, 25, 0, 0, 0, 0]);
    // Too small for an interior.
    assert_eq!(AuraVisionEncoder::sobel_edge_detect(&vec![9, 9, 9, 9], 2, 2), vec![0, 0, 0, 0]);
    assert_eq!(AuraVisionEncoder::sobel_edge_detect(&Vec::new(), 0, 7), Vec::<u8>::new());
}

#[test]
fn pixels_are_scaled_to_the_signed_unit_range() {
    let scaled = AuraVisionEncoder::scale_pixels(&vec![0, 255, 128, 127]);
    assert_eq!(scaled, vec![-1073741824, 1073741824, 4210752, -4210753]);
}

#[test]
fn preprocess_gray_checks_the_size() {
    assert_eq!(AuraVisionEncoder::preprocess_gray(&vec![0; 100]), Err(CoreError::BadInputSize));
    let flat = AuraVisionEncoder::preprocess_gray(&vec![200; PIXEL_COUNT]).unwrap();
    assert_eq!(flat.len(), PIXEL_COUNT);
    assert!(flat.iter().all(|p| *p == -1073741824));
}

#[test]
fn preprocess_from_bytes_decodes_then_filters() {
    let img = image::GrayImage::from_fn(64, 64, |x, y| image::Luma([if x < 20 && y > 5 { 30 } else { 220 }]));
    let raw: Vec<u8> = img.clone().into_raw();
    let mut png: Vec<u8> = Vec::new();
    img.write_to(&mut std::io::Cursor::new(&mut png), image::ImageFormat::Png).unwrap();
    let from_bytes = AuraVisionEncoder::preprocess_from_bytes(&png).unwrap();
    let from_gray = AuraVisionEncoder::preprocess_gray(&raw).unwrap();
    assert_eq!(from_bytes.len(), PIXEL_COUNT);
    assert_eq!(from_bytes, from_gray);
    assert!(from_bytes.iter().any(|p| *p == 1073741824));
    assert_eq!(
        AuraVisionEncoder::preprocess_from_bytes(&vec![1, 2, 3, 4]),
        Err(CoreError::InvalidImage)
    );
}

#[test]
fn preprocess_from_bytes_resizes_larger_images() {
    let img = image::GrayImage::from_fn(200, 120, |x, _y| image::Luma([(x % 256) as u8]));
    let mut png: Vec<u8> = Vec::new();
    img.write_to(&mut std::io::Cursor::new(&mut png), image::ImageFormat::Png).unwrap();
    let pixels = AuraVisionEncoder::preprocess_from_bytes(&png).unwrap();
    assert_eq!(pixels.len(), PIXEL_COUNT);
}

#[test]
fn error_messages() {
    assert_eq!(CoreError::ModelNotLoaded.message(), "model not loaded");
    assert_eq!(CoreError::ModelNotFound.message(), "model file not found");
    assert_eq!(CoreError::InvalidModelFile.message(), "invalid model file");
    assert_eq!(CoreError::BadInputSize.message(), "bad input size");
    assert_eq!(CoreError::IndexIOError.message(), "index I/O error");
    assert_eq!(CoreError::DimensionMismatch.message(), "dimension mismatch");
    assert_eq!(CoreError::InvalidImage.message(), "invalid image");
}
