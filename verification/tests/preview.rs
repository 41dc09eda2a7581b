use dupscanner::preview::{fit, newest_request, placeholder, preview_of, Preview, Previewer, CACHE_ENTRIES};
use image::{DynamicImage, ImageFormat, Rgba, RgbaImage};

fn png(width: u32, height: u32) -> Vec<u8> {
    let img = RgbaImage::from_pixel(width, height, Rgba([10, 20, 30, 255]));
    let mut bytes = std::io::Cursor::new(Vec::new());
    DynamicImage::ImageRgba8(img).write_to(&mut bytes, ImageFormat::Png).unwrap();
    bytes.into_inner()
}

/// What the decoding thread answers.
fn decode(bytes: &[u8]) -> Result<DynamicImage, String> {
    image::load_from_memory(bytes).map(fit).map_err(|e| e.to_string())
}

#[test]
fn decodes_png_in_background_and_caches() {
    let p = "/d/dot.png";
    let mut pv = Previewer::new();
    assert!(matches!(pv.get(p), Preview::Loading));
    assert!(matches!(pv.get(p), Preview::Loading));
    assert_eq!(pv.take_requests(), vec![p], "asked for once");
    assert!(pv.take_requests().is_empty());
    assert!(pv.poll(vec![(p.to_string(), decode(&png(4, 3)))]));
    match pv.get(p) {
        Preview::Ready(im) => assert_eq!((im.width(), im.height()), (4, 3)),
        _ => panic!("decoded by now"),
    }
    assert!(matches!(pv.get(p), Preview::Ready(_)));
    assert!(!pv.poll(vec![]));
    pv.forget(p);
    assert!(matches!(pv.get(p), Preview::Loading));
}

#[test]
fn unsupported_and_broken_files() {
    let mut pv = Previewer::default();
    assert!(matches!(pv.get("/d/notes.txt"), Preview::Unsupported));
    assert!(matches!(pv.get("/d/broken.jpg"), Preview::Loading));
    pv.poll(vec![("/d/broken.jpg".to_string(), decode(b"not a jpeg"))]);
    assert!(matches!(pv.get("/d/broken.jpg"), Preview::Failed(_)));
    assert!(Previewer::supports("/x/A.JPEG"));
    assert!(!Previewer::supports("/x/a.svg"));
}

#[test]
fn the_oldest_previews_leave_the_cache() {
    let mut pv = Previewer::new();
    let path = |i: usize| format!("/d/{i}.png");
    for i in 0..=CACHE_ENTRIES {
        pv.poll(vec![(path(i), Err("x".to_string()))]);
    }
    assert!(matches!(pv.get(&path(0)), Preview::Loading));
    assert!(matches!(pv.get(&path(1)), Preview::Failed(_)));
    assert!(matches!(pv.get(&path(CACHE_ENTRIES)), Preview::Failed(_)));
}

#[test]
fn large_images_are_scaled_down() {
    let wide = DynamicImage::ImageRgba8(RgbaImage::new(2400, 600));
    let small = fit(wide);
    assert_eq!((small.width(), small.height()), (1200, 300));
    let fits = fit(DynamicImage::ImageRgba8(RgbaImage::new(1200, 1200)));
    assert_eq!((fits.width(), fits.height()), (1200, 1200));
    let strip = preview_of(DynamicImage::ImageRgba8(RgbaImage::new(2, 20_000))).unwrap();
    assert_eq!((strip.width(), strip.height()), (1, 1200));
    assert!(preview_of(DynamicImage::ImageRgba8(RgbaImage::new(20_001, 1))).is_none());
}

#[test]
fn only_the_newest_request_is_decoded() {
    let (latest, skipped) = newest_request("/a".to_string(), vec!["/b".to_string(), "/c".to_string()]);
    assert_eq!(latest, "/c");
    assert_eq!(skipped, vec!["/a", "/b"]);
    let (only, none) = newest_request("/a".to_string(), vec![]);
    assert_eq!(only, "/a");
    assert!(none.is_empty());
}

#[test]
fn the_pane_says_why_it_is_empty() {
    assert_eq!(
        placeholder(&Preview::Failed("bad".to_string()), "/x.png").as_deref(),
        Some("Could not decode image: bad")
    );
    assert_eq!(placeholder(&Preview::Loading, "/x.png").as_deref(), Some("Decoding…"));
    assert!(placeholder(&Preview::Unsupported, "/x.mp3").unwrap().starts_with("No terminal preview for "));
}
