use common_lib::stego::{
    conceal_image, decode_image, embed_image, encode_image, hide_in_alpha, hide_in_byte,
    low_resolution, reveal_from_byte, reveal_image, to_rgba, ConcealError, DecodedImage,
    PixelLayout, RgbaImage,
};

fn image(width: u32, height: u32, f: impl Fn(usize) -> u8) -> RgbaImage {
    let n = (4 * width * height) as usize;
    RgbaImage::from_raw(width, height, (0..n).map(f).collect()).expect("four bytes per pixel")
}

fn decoded(layout: PixelLayout, per_pixel: usize, width: u32, height: u32, f: impl Fn(usize) -> u8) -> DecodedImage {
    let n = per_pixel * (width * height) as usize;
    DecodedImage::from_raw(layout, width, height, (0..n).map(f).collect()).expect("samples fit")
}

#[test]
fn raw_needs_four_bytes_per_pixel() {
    assert!(RgbaImage::from_raw(2, 2, vec![0; 16]).is_some());
    assert!(RgbaImage::from_raw(2, 2, vec![0; 15]).is_none());
    assert!(RgbaImage::from_raw(2, 2, vec![0; 17]).is_none());
}

#[test]
fn nibble_hiding_values() {
    assert_eq!(hide_in_byte(0xAB, 0xCD), 0xAC);
    assert_eq!(reveal_from_byte(0xAC), 0xC0);
    assert_eq!(reveal_from_byte(hide_in_byte(0x12, 0xF7)), 0xF0);
}

#[test]
fn embed_keeps_cover_alpha() {
    let cover = image(1, 1, |i| [0x10, 0x20, 0x30, 0x44][i]);
    let secret = image(1, 1, |i| [0xF0, 0xE0, 0xD0, 0x00][i]);
    let out = embed_image(&cover, &secret);
    assert_eq!(out.as_bytes(), &[0x1F, 0x2E, 0x3D, 0x44]);
}

#[test]
fn conversion_to_rgba_follows_each_layout() {
    let luma = decoded(PixelLayout::Luma, 1, 1, 1, |_| 7);
    assert_eq!(to_rgba(&luma).into_raw(), vec![7, 7, 7, 255]);
    let luma_alpha = decoded(PixelLayout::LumaAlpha, 2, 1, 1, |i| [7, 9][i]);
    assert_eq!(to_rgba(&luma_alpha).into_raw(), vec![7, 7, 7, 9]);
    let rgb = decoded(PixelLayout::Rgb, 3, 2, 1, |i| i as u8);
    assert_eq!(to_rgba(&rgb).into_raw(), vec![0, 1, 2, 255, 3, 4, 5, 255]);
    let rgba = decoded(PixelLayout::Rgba, 4, 1, 1, |i| i as u8);
    assert_eq!(to_rgba(&rgba).into_raw(), vec![0, 1, 2, 3]);
    let bgr = decoded(PixelLayout::Bgr, 3, 1, 1, |i| i as u8);
    assert_eq!(to_rgba(&bgr).into_raw(), vec![2, 1, 0, 255]);
    let bgra = decoded(PixelLayout::Bgra, 4, 1, 1, |i| i as u8);
    assert_eq!(to_rgba(&bgra).into_raw(), vec![2, 1, 0, 3]);
}

#[test]
fn conversion_matches_the_image_crate() {
    let samples: Vec<u8> = (0..3 * 6).map(|i| (i * 13 % 256) as u8).collect();
    let ours = to_rgba(&DecodedImage::from_raw(PixelLayout::Bgr, 3, 2, samples.clone()).unwrap());
    let theirs = image::DynamicImage::ImageBgr8(image::ImageBuffer::from_raw(3, 2, samples).unwrap()).to_rgba();
    assert_eq!(ours.into_raw(), theirs.into_raw());
}

#[test]
fn decode_recovers_secret_high_bits() {
    let cover = image(3, 2, |i| (i * 37 % 256) as u8);
    let secret = image(3, 2, |i| (i * 91 % 256) as u8);
    let hidden = embed_image(&cover, &secret);
    let revealed = reveal_image(&hidden);
    assert_eq!(revealed.width(), 3);
    assert_eq!(revealed.height(), 2);
    for (i, (&r, &s)) in revealed.as_bytes().iter().zip(secret.as_bytes()).enumerate() {
        if i % 4 == 3 {
            assert_eq!(r, 255);
        } else {
            assert_eq!(r, s & 0xF0);
        }
    }
}

#[test]
fn decode_of_decoded_image_brings_it_to_rgba_first() {
    let hidden = decoded(PixelLayout::Luma, 1, 2, 1, |i| [0x1A, 0x2B][i]);
    let cover = decoded(PixelLayout::Luma, 1, 2, 1, |_| 0);
    assert_eq!(decode_image(&hidden, &cover).into_raw(), vec![0xA0, 0xA0, 0xA0, 255, 0xB0, 0xB0, 0xB0, 255]);
}

#[test]
fn encode_scales_secret_to_cover() {
    let cover = decoded(PixelLayout::Rgba, 4, 4, 3, |i| (i % 256) as u8);
    let secret = decoded(PixelLayout::Luma, 1, 2, 2, |_| 0xFF);
    let out = encode_image(&cover, &secret);
    assert_eq!(out.width(), 4);
    assert_eq!(out.height(), 3);
    // a uniformly white secret stays white when scaled
    for (i, &o) in out.as_bytes().iter().enumerate() {
        let c = (i % 256) as u8;
        if i % 4 == 3 {
            assert_eq!(o, c);
        } else {
            assert_eq!(o, (c & 0xF0) | 0x0F);
        }
    }
}

#[test]
fn low_resolution_changes_size_and_keeps_layout() {
    let img = decoded(PixelLayout::Rgb, 3, 4, 4, |i| (i % 256) as u8);
    let small = low_resolution(&img, 2, 1);
    assert!(small.layout() == PixelLayout::Rgb);
    assert_eq!(small.width(), 2);
    assert_eq!(small.height(), 1);
    assert_eq!(small.into_raw().len(), 6);
}

#[test]
fn alpha_channel_carries_bytes() {
    let cover = image(2, 2, |_| 7);
    let out = hide_in_alpha(&[1, 2, 3], &cover);
    assert_eq!(out.into_raw(), vec![7, 7, 7, 1, 7, 7, 7, 2, 7, 7, 7, 3, 7, 7, 7, 7]);
}

#[test]
fn decoded_image_needs_samples_for_its_layout() {
    assert!(DecodedImage::from_raw(PixelLayout::Rgb, 2, 1, vec![0; 6]).is_some());
    assert!(DecodedImage::from_raw(PixelLayout::Luma, 2, 1, vec![0; 6]).is_none());
    assert!(DecodedImage::from_raw(PixelLayout::LumaAlpha, 2, 2, vec![0; 8]).is_some());
}

#[test]
fn conceal_hides_a_png_file_in_alpha() {
    let secret = DecodedImage::from_raw(PixelLayout::Luma, 1, 1, vec![200]).unwrap();
    let cover = decoded(PixelLayout::Rgb, 3, 40, 40, |_| 9);
    let out = conceal_image(&secret, &cover).ok().expect("a small secret fits");
    let alphas: Vec<u8> = out.as_bytes().iter().skip(3).step_by(4).copied().collect();
    assert_eq!(&alphas[..8], &[0x89, b'P', b'N', b'G', 0x0D, 0x0A, 0x1A, 0x0A]);
    assert!(out.as_bytes().iter().enumerate().all(|(i, &b)| i % 4 == 3 || b == 9));
}

#[test]
fn conceal_refuses_a_secret_larger_than_the_cover() {
    let secret = DecodedImage::from_raw(PixelLayout::Rgb, 4, 4, (0..48).collect()).unwrap();
    let cover = decoded(PixelLayout::Rgba, 4, 2, 2, |_| 0);
    assert!(conceal_image(&secret, &cover).err() == Some(ConcealError::SecretTooLarge));
}

#[test]
fn conceal_refuses_a_secret_without_columns() {
    let secret = DecodedImage::from_raw(PixelLayout::Luma, 0, 3, Vec::new()).unwrap();
    let cover = decoded(PixelLayout::Rgba, 4, 2, 2, |_| 0);
    assert!(conceal_image(&secret, &cover).err() == Some(ConcealError::EmptySecret));
}

#[test]
fn scaling_an_empty_image_to_no_columns() {
    let img = DecodedImage::from_raw(PixelLayout::Rgba, 0, 2, Vec::new()).unwrap();
    let out = low_resolution(&img, 0, 3);
    assert_eq!((out.width(), out.height()), (0, 3));
}
