use crabmd::images::{
    ext_from_mime_or_name, gfm_image, html_tag, is_image_path, is_media_path, is_remote_src,
    is_video_path, is_video_src, parse_html_src, parse_img_src, parse_video_src, tag_attr_pub,
    timestamped_name, unique_filename,
};

#[test]
fn unique_when_free() {
    let existing: Vec<String> = Vec::new();
    assert_eq!(unique_filename(&existing, "shot.png"), "shot.png");
}

#[test]
fn unique_adds_counter() {
    let existing = vec!["shot.png".to_string(), "shot-2.png".to_string()];
    assert_eq!(unique_filename(&existing, "shot.png"), "shot-3.png");
}

#[test]
fn timestamp_pattern() {
    let name = timestamped_name("20260830-040000", "png");
    assert_eq!(name, "crabmd-image-20260830-040000.png");
}

#[test]
fn image_exts() {
    assert!(is_image_path("a.PNG"));
    assert!(is_image_path("a.webp"));
    assert!(!is_image_path("a.md"));
}

#[test]
fn gfm_line() {
    assert_eq!(gfm_image("cat", "cat.png"), "![cat](cat.png)");
}

#[test]
fn video_exts() {
    assert!(is_video_path("clip.mp4"));
    assert!(is_video_path("clip.MOV"));
    assert!(!is_video_path("clip.png"));
    assert!(is_media_path("clip.webm"));
    assert!(is_media_path("pic.png"));
    assert!(!is_media_path("notes.md"));
    assert!(is_video_src("clip.mp4"));
    assert!(is_video_src("https://x.test/v.mov?dl=1"));
    assert!(!is_video_src("pic.png"));
}

#[test]
fn video_tag_src() {
    assert_eq!(
        parse_video_src(r#"<video src="clip.mp4" controls></video>"#),
        Some("clip.mp4".to_string())
    );
    assert_eq!(
        parse_video_src("<video src=clip.mp4>"),
        Some("clip.mp4".to_string())
    );
    assert_eq!(parse_video_src("![a](b.png)"), None);
}

#[test]
fn img_tag_src() {
    assert_eq!(
        parse_img_src(r#"<p><img width="100%" src="https://x.test/b.png" alt="B"></p>"#),
        Some(("https://x.test/b.png".to_string(), "B".to_string()))
    );
    assert_eq!(
        parse_img_src("<img src=pic.png>"),
        Some(("pic.png".to_string(), String::new()))
    );
    assert_eq!(parse_img_src("<video src=c.mp4>"), None);
}

// ---- further cases ----

#[test]
fn file_names_follow_path_rules() {
    assert!(!is_image_path(".png"));
    assert!(is_image_path("dir/x.tar.png"));
    assert!(is_image_path("dir/x.png/"));
    assert!(!is_image_path("dir.png/.."));
    assert!(!is_image_path("noext"));
}

#[test]
fn unique_without_extension_and_stem() {
    let existing = vec!["notes".to_string()];
    assert_eq!(unique_filename(&existing, "notes"), "notes-2");
    let existing = vec!["..".to_string()];
    assert_eq!(unique_filename(&existing, ".."), "image-2");
}

#[test]
fn timestamp_drops_leading_dots() {
    assert_eq!(timestamped_name("1", "..jpg"), "crabmd-image-1.jpg");
}

#[test]
fn attributes_skip_longer_names() {
    assert_eq!(
        tag_attr_pub(r#"<x data-src="no" src='yes'>"#, "src"),
        Some("yes".to_string())
    );
    assert_eq!(tag_attr_pub("<x src>", "src"), None);
    assert_eq!(tag_attr_pub("<x SRC = a.png/>", "src"), Some("a.png".to_string()));
}

#[test]
fn html_src_falls_back_to_href() {
    assert_eq!(
        parse_html_src(r#"<a href="https://e.x">x</a>"#),
        Some("https://e.x".to_string())
    );
    assert_eq!(
        parse_html_src(r#"<iframe src="https://v.x/e"></iframe>"#),
        Some("https://v.x/e".to_string())
    );
}

#[test]
fn tag_names_are_lowercased() {
    assert_eq!(html_tag("  <VIDEO src=a>"), Some("video".to_string()));
    assert_eq!(html_tag("</Details>"), Some("details".to_string()));
    assert_eq!(html_tag("text"), None);
    assert_eq!(html_tag("< x"), None);
}

#[test]
fn mime_hints() {
    assert_eq!(ext_from_mime_or_name("image/JPEG"), "jpg");
    assert_eq!(ext_from_mime_or_name("a.gif"), "gif");
    assert_eq!(ext_from_mime_or_name("image/webp"), "webp");
    assert_eq!(ext_from_mime_or_name("x.svg"), "svg");
    assert_eq!(ext_from_mime_or_name("x.bmp"), "bmp");
    assert_eq!(ext_from_mime_or_name("whatever"), "png");
}

#[test]
fn remote_sources() {
    assert!(is_remote_src("https://a"));
    assert!(is_remote_src("http://a"));
    assert!(!is_remote_src("ftp://a"));
}

#[test]
fn pasted_names_are_stamped() {
    let name = crabmd::images::paste_image_name(".png");
    assert!(name.starts_with("crabmd-image-"));
    assert!(name.ends_with(".png"));
    assert!(!name.ends_with("..png"));
}

#[test]
fn stamps_have_the_paste_layout() {
    let s = crabmd::images::now_stamp();
    assert!(s.len() >= 15, "{s}");
    let b = s.as_bytes();
    let n = b.len();
    assert_eq!(b[n - 7], b'-');
    assert!(b[n - 6..].iter().all(|c| c.is_ascii_digit()));
    assert!(b[..n - 7].iter().enumerate().all(|(k, c)| c.is_ascii_digit() || (k == 0 && (*c == b'+' || *c == b'-'))));
    let name = crabmd::images::paste_image_name("png");
    assert_eq!(name.len(), "crabmd-image-".len() + s.len() + ".png".len());
}
