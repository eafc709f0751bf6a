use psd_tree::export::{
    ExportError, compose_layer_image, crop_visible, materialize_image, premultiply,
};

/// A w x h canvas of fully transparent pixels.
fn blank(w: u32, h: u32) -> Vec<u8> {
    vec![0u8; (w * h * 4) as usize]
}

/// Writes one RGBA pixel into a canvas buffer.
fn put(buf: &mut Vec<u8>, w: u32, x: u32, y: u32, px: [u8; 4]) {
    let base = (4 * (y * w + x)) as usize;
    buf[base..base + 4].copy_from_slice(&px);
}

#[test]
fn crop_single_visible_pixel() {
    let mut buf = blank(4, 3);
    put(&mut buf, 4, 2, 1, [10, 20, 30, 200]);
    let img = crop_visible(4, 3, &buf).unwrap();
    assert_eq!(img.left, 2);
    assert_eq!(img.top, 1);
    assert_eq!(img.width, 1);
    assert_eq!(img.height, 1);
    assert_eq!(img.bytes, vec![10, 20, 30, 200]);
}

#[test]
fn crop_bounding_box_spans_visible_pixels() {
    let mut buf = blank(5, 5);
    put(&mut buf, 5, 1, 1, [1, 1, 1, 255]);
    put(&mut buf, 5, 3, 2, [2, 2, 2, 255]);
    let img = crop_visible(5, 5, &buf).unwrap();
    assert_eq!((img.left, img.top), (1, 1));
    assert_eq!((img.width, img.height), (3, 2));
    assert_eq!(img.bytes.len(), (img.width * img.height * 4) as usize);
    // Containment: never larger than the canvas.
    assert!(img.width <= 5 && img.height <= 5);
    // Top-left of the crop is the first visible pixel.
    assert_eq!(&img.bytes[0..4], &[1, 1, 1, 255]);
    // The second visible pixel sits at the crop's lower-right corner.
    let corner = 4 * ((1 * img.width) + 2) as usize;
    assert_eq!(&img.bytes[corner..corner + 4], &[2, 2, 2, 255]);
}

#[test]
fn crop_fully_transparent_is_none() {
    let buf = blank(3, 3);
    assert!(crop_visible(3, 3, &buf).is_none());
}

#[test]
fn premultiply_opaque_layer_is_unchanged() {
    let mut bytes = vec![10, 20, 30, 255, 0, 0, 0, 0, 7, 8, 9, 128];
    let before = bytes.clone();
    premultiply(&mut bytes, 255);
    assert_eq!(bytes, before);
}

#[test]
fn premultiply_transparent_pixel_untouched() {
    let mut bytes = vec![10, 20, 30, 0, 100, 100, 100, 200];
    premultiply(&mut bytes, 0);
    // The alpha-0 pixel keeps its bytes whatever the opacity; the visible
    // pixel is scaled to nothing.
    assert_eq!(bytes, vec![10, 20, 30, 0, 0, 0, 0, 0]);
}

#[test]
fn premultiply_rounds_to_nearest() {
    // 100 * 128 / 255 = 50.19... rounds to 50; 255 * 128 / 255 = 128.
    let mut bytes = vec![100, 0, 255, 128];
    premultiply(&mut bytes, 128);
    assert_eq!(bytes, vec![50, 0, 128, 64]);
}

#[test]
fn compose_crops_then_scales() {
    let mut buf = blank(4, 4);
    put(&mut buf, 4, 1, 2, [100, 50, 200, 255]);
    let img = compose_layer_image(4, 4, buf, 128).unwrap();
    assert_eq!((img.left, img.top), (1, 2));
    assert_eq!((img.width, img.height), (1, 1));
    assert_eq!(img.bytes, vec![50, 25, 100, 128]);
}

#[test]
fn materialize_uncropped_returns_whole_canvas() {
    let mut buf = blank(2, 2);
    put(&mut buf, 2, 0, 1, [9, 9, 9, 100]);
    let expected = buf.clone();
    let img = materialize_image(2, 2, buf, 10, false).unwrap();
    assert_eq!((img.left, img.top), (0, 0));
    assert_eq!((img.width, img.height), (2, 2));
    assert_eq!(img.bytes, expected);
}

#[test]
fn materialize_cropped_matches_compose() {
    let mut buf = blank(4, 4);
    put(&mut buf, 4, 1, 2, [100, 50, 200, 255]);
    let img = materialize_image(4, 4, buf, 128, true).unwrap();
    assert_eq!((img.left, img.top), (1, 2));
    assert_eq!((img.width, img.height), (1, 1));
    assert_eq!(img.bytes, vec![50, 25, 100, 128]);
}

#[test]
fn compose_rejects_wrong_buffer_size() {
    let buf = vec![0u8; 7];
    match compose_layer_image(2, 2, buf, 255) {
        Err(ExportError::BufferSizeMismatch) => {}
        other => panic!("expected a size mismatch, got {:?}", other.map(|i| i.bytes)),
    }
}

#[test]
fn compose_skips_fully_transparent_layer() {
    let buf = blank(2, 2);
    match compose_layer_image(2, 2, buf, 255) {
        Err(ExportError::FullyTransparent) => {}
        other => panic!("expected fully transparent, got {:?}", other.map(|i| i.bytes)),
    }
}
