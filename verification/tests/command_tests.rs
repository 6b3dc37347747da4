use surf_fed::{
    add_result, check_post_url, choose_builtin_dir, collect_images, copy_step,
    darkreader_get_css, download_file_name, http_status_failure, images_from_html,
    info_from_manifest, maximize_action, page_info_get, parse_u32, result_from_html,
    next_file_manager, result_from_images, BuiltinDir, CopyStep, ImgAttributes, InstagramImage,
    Manifest, Platform, WindowResize,
};

#[test]
fn decimal_parsing_follows_u32_from_str() {
    assert_eq!(parse_u32("640"), Some(640));
    assert_eq!(parse_u32("+7"), Some(7));
    assert_eq!(parse_u32("4294967295"), Some(u32::MAX));
    assert_eq!(parse_u32("4294967296"), None);
    assert_eq!(parse_u32("99999999999999999999"), None);
    assert_eq!(parse_u32("-1"), None);
    assert_eq!(parse_u32("+"), None);
    assert_eq!(parse_u32(""), None);
    assert_eq!(parse_u32("12px"), None);
    assert_eq!(parse_u32("0012"), Some(12));
}

#[test]
fn post_urls_are_checked() {
    assert_eq!(check_post_url("  https://www.instagram.com/p/abc/ \n").ok().unwrap(), "https://www.instagram.com/p/abc/");
    let empty = check_post_url("   ").err().unwrap();
    assert!(!empty.ok && empty.images.is_empty());
    assert_eq!(empty.error.as_deref(), Some("No URL provided"));
    let other = check_post_url("https://example.com/p/1").err().unwrap();
    assert_eq!(other.error.as_deref(), Some("URL does not look like an Instagram post"));
}

fn img(src: &str, w: Option<&str>, h: Option<&str>) -> ImgAttributes {
    ImgAttributes {
        src: Some(src.to_string()),
        width: w.map(|s| s.to_string()),
        height: h.map(|s| s.to_string()),
    }
}

#[test]
fn images_are_collected_once_each() {
    let images = collect_images(
        vec![Some("https://a.cdninstagram.com/1.jpg".into()), Some(String::new()), None, Some("https://a.cdninstagram.com/1.jpg".into())],
        vec![
            img("https://a.cdninstagram.com/1.jpg", Some("10"), None),
            img("https://scontent.fbcdn.net/2.jpg", Some("1080"), Some("wide")),
            img("https://example.com/logo.png", Some("1"), Some("1")),
        ],
    );
    assert_eq!(images.len(), 2);
    assert_eq!(images[0].url, "https://a.cdninstagram.com/1.jpg");
    assert_eq!((images[0].width, images[0].height), (None, None));
    assert_eq!(images[1].url, "https://scontent.fbcdn.net/2.jpg");
    assert_eq!((images[1].width, images[1].height), (Some(1080), None));
}

#[test]
fn images_are_found_in_html() {
    let html = r#"<html><head><meta property="og:image" content="https://x.cdninstagram.com/og.jpg"></head>
        <body><img src="https://x.cdninstagram.com/og.jpg" width="5"><img src="https://y.fbcdn.net/b.jpg" width="320" height="240"><img src="/local.png"></body></html>"#;
    let images = images_from_html(html);
    let urls: Vec<&str> = images.iter().map(|i: &InstagramImage| i.url.as_str()).collect();
    assert_eq!(urls, vec!["https://x.cdninstagram.com/og.jpg", "https://y.fbcdn.net/b.jpg"]);
    assert_eq!((images[1].width, images[1].height), (Some(320), Some(240)));
    let r = result_from_html(html);
    assert!(r.ok && r.error.is_none() && r.images.len() == 2);
}

#[test]
fn page_without_images_fails() {
    let r = result_from_html("<html><body><p>login</p></body></html>");
    assert!(!r.ok && r.images.is_empty());
    assert_eq!(r.error.as_deref(), Some("No images found. The post may be private or login-walled."));
    let r = result_from_images(vec![]);
    assert!(!r.ok);
}

#[test]
fn consecutive_duplicates_are_dropped() {
    let im = |u: &str| InstagramImage { url: u.to_string(), width: None, height: None };
    let r = result_from_images(vec![im("a"), im("a"), im("b"), im("a")]);
    let urls: Vec<&str> = r.images.iter().map(|i| i.url.as_str()).collect();
    assert_eq!(urls, vec!["a", "b", "a"]);
    assert!(r.ok);
}

#[test]
fn http_failure_message() {
    let r = http_status_failure("404 Not Found");
    assert!(!r.ok);
    assert_eq!(r.error.as_deref(), Some("Instagram returned HTTP 404 Not Found"));
}

#[test]
fn download_names() {
    assert_eq!(download_file_name(String::new()), "instagram_image.jpg");
    assert_eq!(download_file_name("p.png".into()), "p.png");
}

#[test]
fn add_results() {
    let r = add_result(None);
    assert!(!r.ok && r.extension.is_none());
    assert_eq!(r.error.as_deref(), Some("No folder selected"));
    let info = info_from_manifest("e", &Manifest { name: None, version: None, description: None }, false);
    let r = add_result(Some(Ok(info)));
    assert!(r.ok && r.error.is_none());
    assert_eq!(r.extension.unwrap().id, "e");
    let r = add_result(Some(Err("Could not copy extension: denied".into())));
    assert!(!r.ok);
    assert_eq!(r.error.as_deref(), Some("Could not copy extension: denied"));
}

#[test]
fn page_info_is_packaged() {
    let p = page_info_get("T".into(), "https://u".into(), "d".into(), 3, 4);
    assert_eq!((p.title.as_str(), p.url.as_str(), p.description.as_str(), p.link_count, p.image_count), ("T", "https://u", "d", 3, 4));
}

#[test]
fn dark_reader_css_is_the_filter() {
    let css = darkreader_get_css();
    assert!(css.starts_with("\nhtml {\n  filter: invert(0.92) hue-rotate(180deg)"));
    assert!(css.contains("html[data-surf-fed-skip] {\n  filter: none !important;\n}\n"));
}

#[test]
fn window_and_path_decisions() {
    assert!(matches!(maximize_action(Some(true)), WindowResize::Unmaximize));
    assert!(matches!(maximize_action(Some(false)), WindowResize::Maximize));
    assert!(matches!(maximize_action(None), WindowResize::Maximize));
    assert!(matches!(choose_builtin_dir(Some(true), true, true), BuiltinDir::Resource));
    assert!(matches!(choose_builtin_dir(Some(false), true, true), BuiltinDir::WorkingDir));
    assert!(matches!(choose_builtin_dir(None, false, true), BuiltinDir::ProjectDir));
    assert!(matches!(choose_builtin_dir(Some(false), false, false), BuiltinDir::Resource));
    assert!(matches!(choose_builtin_dir(None, false, false), BuiltinDir::WorkingDir));
    assert!(matches!(copy_step(true, false, false), CopyStep::Descend));
    assert!(matches!(copy_step(false, true, false), CopyStep::Skip));
    assert!(matches!(copy_step(false, false, true), CopyStep::CopyFile));
    assert!(matches!(copy_step(false, false, false), CopyStep::Skip));
}

#[test]
fn file_managers_are_tried_in_order() {
    assert_eq!(next_file_manager(Platform::OtherUnix, 0, false).as_deref(), Some("xdg-open"));
    assert_eq!(next_file_manager(Platform::OtherUnix, 1, false).as_deref(), Some("nautilus"));
    assert_eq!(next_file_manager(Platform::OtherUnix, 2, false).as_deref(), Some("thunar"));
    assert_eq!(next_file_manager(Platform::OtherUnix, 3, false).as_deref(), Some("dolphin"));
    assert_eq!(next_file_manager(Platform::OtherUnix, 4, false), None);
    assert_eq!(next_file_manager(Platform::OtherUnix, 1, true), None);
    assert_eq!(next_file_manager(Platform::Windows, 0, false).as_deref(), Some("explorer"));
    assert_eq!(next_file_manager(Platform::Windows, 1, false), None);
    assert_eq!(next_file_manager(Platform::MacOs, 0, false).as_deref(), Some("open"));
    assert_eq!(next_file_manager(Platform::MacOs, 0, true), None);
}

#[test]
fn page_images_carry_dimensions() {
    let html = r#"<html><head><meta property="og:image" content=""></head><body>
        <img src="https://scontent.cdninstagram.com/a.jpg" width="1080" height="+720">
        <img src="https://example.com/b.jpg" width="1">
        <img src="https://x.fbcdn.net/c.jpg" width="wide">
        </body></html>"#;
    let images = images_from_html(html);
    assert_eq!(images.len(), 2);
    assert_eq!(images[0].url, "https://scontent.cdninstagram.com/a.jpg");
    assert_eq!(images[0].width, Some(1080));
    assert_eq!(images[0].height, Some(720));
    assert_eq!(images[1].url, "https://x.fbcdn.net/c.jpg");
    assert_eq!(images[1].width, None);
    assert_eq!(images[1].height, None);
    let r = result_from_html(html);
    assert!(r.ok);
    assert_eq!(r.images.len(), 2);
    assert!(r.images.iter().all(|i| !i.url.is_empty()));
}
