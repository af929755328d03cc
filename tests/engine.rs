use leptos_image::blur::create_image_blur;
use leptos_image::codec::decimal_string;
use leptos_image::descriptor::{Blur, CachedImage, CachedImageOption, Resize};
use leptos_image::optimizer::{path_from_segments, ImageOptimizer};
use leptos_image::orient::{
    auto_orient_image, brand_invert_orientation, fix_orientation_standard, ExifRecord, OrientationFix,
    OrientationQuirk,
};
use leptos_image::scheduler::{joined_outcome, Admission, CreateImageError, CreateStep};

fn optimizer(no_upscale: bool, ttl: Option<u64>) -> ImageOptimizer {
    ImageOptimizer::new(
        "/__cache/image".to_string(),
        "./public".to_string(),
        2,
        no_upscale,
        ttl,
    )
}

fn resize_image(src: &str, width: u32, height: u32, quality: u8) -> CachedImage {
    CachedImage {
        src: src.to_string(),
        option: CachedImageOption::Resize(Resize { width, height, quality }),
    }
}

fn small_blur(src: &str) -> CachedImage {
    CachedImage {
        src: src.to_string(),
        option: CachedImageOption::Blur(Blur {
            width: 20,
            height: 20,
            svg_width: 100,
            svg_height: 100,
            sigma: 15,
        }),
    }
}

#[test]
fn upscale_clamp_per_dimension() {
    let o = optimizer(true, None);
    let r = o.maybe_clamp(&resize_image("a.png", 200, 50, 75), Some((100, 100)));
    assert_eq!(r, resize_image("a.png", 100, 50, 75));
    let r = o.maybe_clamp(&resize_image("a.png", 50, 300, 75), Some((100, 100)));
    assert_eq!(r, resize_image("a.png", 50, 100, 75));
    let r = o.maybe_clamp(&resize_image("a.png", 80, 90, 75), Some((100, 100)));
    assert_eq!(r, resize_image("a.png", 80, 90, 75));
}

#[test]
fn upscale_clamp_left_alone() {
    let allow = optimizer(false, None);
    let req = resize_image("a.png", 200, 50, 75);
    assert_eq!(allow.maybe_clamp(&req, Some((100, 100))), req);
    let deny = optimizer(true, None);
    assert_eq!(deny.maybe_clamp(&req, None), req);
    let b = small_blur("a.png");
    assert_eq!(deny.maybe_clamp(&b, Some((1, 1))), b);
}

#[test]
fn ttl_expiry_scenario() {
    let mut o = optimizer(false, Some(10));
    let img = small_blur("a.png");
    o.put_blur_at(&img, "<svg/>".to_string(), 1000);
    assert_eq!(o.get_blur_at(&img, 1005), Some("<svg/>".to_string()));
    assert_eq!(o.get_blur_at(&img, 1010), Some("<svg/>".to_string()));
    assert!(o.blur_cache.contains(&img));
    assert_eq!(o.get_blur_at(&img, 1011), None);
    assert!(!o.blur_cache.contains(&img));
    assert_eq!(o.blur_cache.len(), 0);
}

#[test]
fn placeholders_without_ttl_stay() {
    let mut o = optimizer(false, None);
    let img = small_blur("a.png");
    assert_eq!(o.get_blur_at(&img, 0), None);
    o.put_blur_at(&img, "one".to_string(), 0);
    o.put_blur_at(&img, "two".to_string(), 5);
    assert_eq!(o.blur_cache.len(), 1);
    assert_eq!(o.get_blur_at(&img, i64::MAX), Some("two".to_string()));
    o.put_blur(&small_blur("b.png"), "three".to_string());
    assert_eq!(o.get_blur(&small_blur("b.png")), Some("three".to_string()));
    assert_eq!(o.blur_cache.len(), 2);
}

#[test]
fn dedup_single_producer() {
    let mut o = optimizer(false, None);
    let img = resize_image("a.png", 10, 10, 50);
    assert_eq!(o.begin_create(&img, false), CreateStep::Produce);
    for _ in 0..4 {
        assert_eq!(o.begin_create(&img, false), CreateStep::Join);
    }
    let other = resize_image("b.png", 10, 10, 50);
    assert_eq!(o.begin_create(&other, false), CreateStep::Produce);
    assert_eq!(o.finish_create(&img, Ok(())), Ok(true));
    assert_eq!(joined_outcome(Ok(())), Ok(true));
    assert!(!o.in_flight.is_in_flight(&img));
    assert!(o.in_flight.is_in_flight(&other));
}

#[test]
fn idempotent_create_sequence() {
    let mut o = optimizer(false, None);
    let img = resize_image("a.png", 100, 80, 75);
    assert_eq!(o.begin_create(&img, false), CreateStep::Produce);
    assert_eq!(o.finish_create(&img, Ok(())), Ok(true));
    assert_eq!(o.begin_create(&img, true), CreateStep::AlreadyDone);
    assert!(!o.in_flight.is_in_flight(&img));
}

#[test]
fn failures_are_not_cached() {
    let mut o = optimizer(false, None);
    let img = resize_image("a.png", 1, 1, 1);
    let errors = vec![
        CreateImageError::SourceUnreadable("missing".to_string()),
        CreateImageError::EncodeFailure("codec".to_string()),
        CreateImageError::IoFailure("disk".to_string()),
        CreateImageError::WorkerFailure("panic".to_string()),
        CreateImageError::AdmissionFailure("closed".to_string()),
    ];
    for e in errors {
        assert_eq!(o.begin_create(&img, false), CreateStep::Produce);
        assert_eq!(o.finish_create(&img, Err(e.clone())), Err(e.clone()));
        assert_eq!(joined_outcome(Err(e.clone())), Err(e));
    }
}

#[test]
fn bounded_parallelism() {
    let mut a = Admission::new(2);
    let admitted: Vec<bool> = (0..5).map(|_| a.try_admit()).collect();
    assert_eq!(admitted, vec![true, true, false, false, false]);
    assert_eq!(a.running(), 2);
    a.release();
    assert_eq!(a.running(), 1);
    assert!(a.try_admit());
    assert_eq!(a.capacity(), 2);
}

#[test]
fn orientation_table() {
    let expected = vec![
        (0, OrientationFix::Identity),
        (1, OrientationFix::Identity),
        (2, OrientationFix::FlipHorizontal),
        (3, OrientationFix::Rotate180),
        (4, OrientationFix::FlipVertical),
        (5, OrientationFix::Transpose),
        (6, OrientationFix::Rotate90),
        (7, OrientationFix::Transverse),
        (8, OrientationFix::Rotate270),
        (9, OrientationFix::Identity),
    ];
    for (code, fix) in expected {
        assert_eq!(fix_orientation_standard(code), fix);
    }
}

fn record(tag: u16, first_u16: Option<u16>, ascii: Option<&str>) -> ExifRecord {
    ExifRecord { tag, first_u16, ascii: ascii.map(|a| a.to_string()) }
}

#[test]
fn orientation_from_exif_uses_last_code() {
    let entries = vec![
        record(0x010f, None, Some("Canon")),
        record(0x0112, Some(3), None),
        record(0x0100, Some(6), None),
        record(0x0112, Some(8), None),
        record(0x0112, None, None),
    ];
    assert_eq!(auto_orient_image(&entries, &vec![]), OrientationFix::Rotate270);
    assert_eq!(auto_orient_image(&vec![], &vec![]), OrientationFix::Identity);
}

#[test]
fn brand_quirks_remap_codes() {
    let quirks = vec![
        OrientationQuirk { brand: "Canon".to_string(), from: 6, to: 8 },
        OrientationQuirk { brand: "Canon".to_string(), from: 8, to: 6 },
    ];
    assert_eq!(brand_invert_orientation("Canon", 6, &quirks), 8);
    assert_eq!(brand_invert_orientation("Canon", 8, &quirks), 6);
    assert_eq!(brand_invert_orientation("Canon", 3, &quirks), 3);
    assert_eq!(brand_invert_orientation("Nikon", 6, &quirks), 6);
    assert_eq!(brand_invert_orientation("Canon", 6, &vec![]), 6);
    let entries = vec![record(0x0112, Some(6), None), record(0x010f, Some(1), Some("Canon"))];
    assert_eq!(auto_orient_image(&entries, &quirks), OrientationFix::Rotate270);
    assert_eq!(auto_orient_image(&entries, &vec![]), OrientationFix::Rotate90);
    let no_make = vec![record(0x0112, Some(6), None)];
    assert_eq!(auto_orient_image(&no_make, &quirks), OrientationFix::Rotate90);
}

#[test]
fn joins_path_segments() {
    let parts = vec!["./public/".to_string(), "/cache/x.svg".to_string()];
    assert_eq!(path_from_segments(&parts), "./public/cache/x.svg");
    let parts = vec!["/".to_string(), "a/".to_string(), "".to_string(), "b".to_string()];
    assert_eq!(path_from_segments(&parts), "a/b");
    let o = optimizer(false, None);
    let img = small_blur("pic.png");
    assert_eq!(
        o.get_file_path_from_root(&img),
        format!("public/{}", img.get_file_path()).replacen("public", "./public", 1)
    );
    assert_eq!(o.get_file_path(&img), img.get_file_path());
}

#[test]
fn blur_markup_embeds_base64_raster() {
    let b = Blur { width: 10, height: 10, svg_width: 100, svg_height: 50, sigma: 12 };
    let svg = create_image_blur(b, &vec![1u8, 2, 3, 255]);
    assert!(svg.starts_with("<svg xmlns=\"http://www.w3.org/2000/svg\""));
    assert!(svg.contains("viewBox=\"0 0 100 50\""));
    assert!(svg.contains("stdDeviation=\"12\""));
    assert!(svg.contains("href=\"data:image/webp;base64,AQID/w==\""));
    assert!(svg.ends_with("</svg>"));
}

#[test]
fn decimal_text_is_exact() {
    assert_eq!(decimal_string(0), "0");
    assert_eq!(decimal_string(907), "907");
    assert_eq!(decimal_string(4294967295), "4294967295");
}

#[test]
fn image_config_lists_placeholders() {
    let mut o = optimizer(false, None);
    let a = small_blur("a.png");
    let b = small_blur("b.png");
    o.put_blur_at(&a, "A".to_string(), 1);
    o.put_blur_at(&b, "B".to_string(), 2);
    o.put_blur_at(&a, "A2".to_string(), 3);
    let cfg = o.image_config();
    assert_eq!(cfg.api_handler_path, "/__cache/image");
    assert_eq!(cfg.cache.len(), 2);
    assert!(cfg.cache.contains(&(a, "A2".to_string())));
    assert!(cfg.cache.contains(&(b, "B".to_string())));
}

#[test]
fn zero_ttl_keeps_placeholders() {
    let mut o = optimizer(false, Some(0));
    let img = small_blur("a.png");
    o.put_blur_at(&img, "<svg/>".to_string(), 1000);
    assert_eq!(o.get_blur_at(&img, 1_000_000), Some("<svg/>".to_string()));
    assert!(o.blur_cache.contains(&img));
}
