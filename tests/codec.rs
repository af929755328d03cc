use leptos_image::codec::QueryError;
use leptos_image::descriptor::{Blur, CachedImage, CachedImageOption, Resize};

fn resize_image(src: &str, width: u32, height: u32, quality: u8) -> CachedImage {
    CachedImage {
        src: src.to_string(),
        option: CachedImageOption::Resize(Resize { width, height, quality }),
    }
}

fn blur_image(src: &str, w: u32, h: u32, sw: u32, sh: u32, sigma: u8) -> CachedImage {
    CachedImage {
        src: src.to_string(),
        option: CachedImageOption::Blur(Blur {
            width: w,
            height: h,
            svg_width: sw,
            svg_height: sh,
            sigma,
        }),
    }
}

#[test]
fn test_url_encode_roundtrip() {
    let c = CachedImage {
        src: "images/test.png".to_string(),
        option: CachedImageOption::Resize(Resize {
            width: 100,
            height: 80,
            quality: 75,
        }),
    };
    let url = c.get_url_encoded("/__cache/image");
    println!("Encoded URL: {url}");
    let decoded = CachedImage::from_url_encoded(&url).unwrap();
    assert_eq!(decoded, c);
}

#[test]
fn test_file_path_roundtrip() {
    let c = CachedImage {
        src: "images/test.png".to_string(),
        option: CachedImageOption::Blur(Blur {
            width: 10,
            height: 10,
            svg_width: 100,
            svg_height: 100,
            sigma: 12,
        }),
    };
    let fp = c.get_file_path();
    println!("File path: {fp}");
    let back = CachedImage::from_file_path(&fp).unwrap();
    assert_eq!(back, c);
}

#[test]
fn test_roundtrip_file_path() {
    let ci = CachedImage {
        src: "imgs/foo.png".into(),
        option: CachedImageOption::Blur(Blur {
            width: 10,
            height: 10,
            svg_width: 100,
            svg_height: 50,
            sigma: 8,
        }),
    };
    let p = ci.get_file_path();
    println!("file path = {p}");
    let back = CachedImage::from_file_path(&p).unwrap();
    assert_eq!(back, ci);
}

#[test]
fn query_string_of_resize_is_exact() {
    let c = resize_image("a.png", 100, 80, 75);
    assert_eq!(
        c.query_string(),
        "src=a.png&option[r][w]=100&option[r][h]=80&option[r][q]=75"
    );
}

#[test]
fn query_string_of_blur_is_exact() {
    let c = blur_image("x.jpg", 20, 20, 100, 50, 15);
    assert_eq!(
        c.query_string(),
        "src=x.jpg&option[b][w]=20&option[b][h]=20&option[b][sw]=100&option[b][sh]=50&option[b][s]=15"
    );
}

#[test]
fn query_string_percent_encodes_reserved_bytes() {
    let c = resize_image("images/my pic é.png", 0, 4294967295, 255);
    let q = c.query_string();
    assert_eq!(
        q,
        "src=images%2Fmy%20pic%20%C3%A9.png&option[r][w]=0&option[r][h]=4294967295&option[r][q]=255"
    );
    assert_eq!(CachedImage::from_query_string(&q).unwrap(), c);
}

#[test]
fn query_round_trip_on_many_descriptors() {
    let cases = vec![
        resize_image("", 1, 2, 3),
        resize_image("a&b=c?d", 10, 0, 0),
        blur_image("/abs/path.webp", 0, 1, 2, 3, 4),
        blur_image("日本.png", 4294967295, 7, 8, 9, 255),
    ];
    for c in cases {
        let q = c.query_string();
        assert_eq!(CachedImage::from_query_string(&q).unwrap(), c);
        let p = c.get_file_path();
        assert_eq!(CachedImage::from_file_path(&p).unwrap(), c);
        let u = c.get_url_encoded("/__cache/image");
        assert_eq!(CachedImage::from_url_encoded(&u).unwrap(), c);
    }
}

#[test]
fn non_canonical_queries_are_refused() {
    let bad = vec![
        "",
        "src=a.png",
        "src=a.png&option[r][w]=100&option[r][h]=80",
        "src=a.png&option[r][w]=0100&option[r][h]=80&option[r][q]=75",
        "src=a.png&option[r][w]=100&option[r][h]=80&option[r][q]=256",
        "src=a.png&option[r][w]=4294967296&option[r][h]=80&option[r][q]=75",
        "src=a%2f.png&option[r][w]=1&option[r][h]=1&option[r][q]=1",
        "src=a%2.png&option[r][w]=1&option[r][h]=1&option[r][q]=1",
        "src=a.png&option[r][w]=1&option[r][h]=1&option[r][q]=1&x=1",
        "src=a.png&option[x][w]=1&option[x][h]=1&option[x][q]=1",
    ];
    for q in bad {
        assert_eq!(CachedImage::from_query_string(q), Err(QueryError::NotADescriptor));
    }
}

#[test]
fn url_without_question_mark_is_read_whole() {
    let c = resize_image("a.png", 1, 2, 3);
    let q = c.query_string();
    assert_eq!(CachedImage::from_url_encoded(&q).unwrap(), c);
    assert_eq!(
        CachedImage::from_url_encoded("/__cache/image?garbage"),
        Err(QueryError::NotADescriptor)
    );
}

#[test]
fn url_has_handler_then_query() {
    let c = resize_image("a.png", 100, 80, 75);
    assert_eq!(
        c.get_url_encoded("/__cache/image"),
        "/__cache/image?src=a.png&option[r][w]=100&option[r][h]=80&option[r][q]=75"
    );
}

#[test]
fn scenario_file_path_layout() {
    let c = resize_image("a.png", 100, 80, 75);
    let p = c.get_file_path();
    assert!(p.starts_with("cache/image/"));
    assert!(p.ends_with("/a.png.webp"));
    let segs: Vec<&str> = p.split('/').collect();
    assert_eq!(segs.len(), 4);
    // the directory is the URL-safe base64 of the query string
    assert_eq!(
        segs[2],
        "c3JjPWEucG5nJm9wdGlvbltyXVt3XT0xMDAmb3B0aW9uW3JdW2hdPTgwJm9wdGlvbltyXVtxXT03NQ=="
    );
    assert_eq!(CachedImage::from_file_path(&p).unwrap(), c);
    let b = blur_image("/dir/b.jpg/", 1, 1, 1, 1, 1);
    assert!(b.get_file_path().ends_with("/dir/b.jpg.svg"));
}

#[test]
fn file_path_decoding_tolerates_arbitrary_paths() {
    assert_eq!(CachedImage::from_file_path(""), None);
    assert_eq!(CachedImage::from_file_path("cache/image/nothing/here.png"), None);
    assert_eq!(CachedImage::from_file_path("////"), None);
    assert_eq!(CachedImage::from_file_path("QUJD/abcd/===="), None);
    let c = blur_image("z.png", 1, 2, 3, 4, 5);
    let p = format!("some/prefix/{}", c.get_file_path());
    assert_eq!(CachedImage::from_file_path(&p).unwrap(), c);
}

#[test]
fn descriptor_equality_is_structural() {
    let a = resize_image("a.png", 1, 2, 3);
    assert!(a.same_as(&a.duplicate()));
    assert!(!a.same_as(&resize_image("a.png", 1, 2, 4)));
    assert!(a != resize_image("b.png", 1, 2, 3));
}
