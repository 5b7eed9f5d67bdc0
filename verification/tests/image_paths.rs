use vpin::vpx::image::{ext, is_bmp, is_link};

#[test]
fn extension_is_what_follows_the_last_dot() {
    assert_eq!(ext("C:\\images\\ball.v2.png"), "png");
    assert_eq!(ext("screenshot"), "screenshot");
    assert_eq!(ext("trailing."), "");
    assert_eq!(ext(""), "");
}

#[test]
fn bitmaps_are_recognised_in_any_case() {
    assert!(is_bmp("backglass.bmp"));
    assert!(is_bmp("BACKGLASS.BMP"));
    assert!(is_bmp("x.bMp"));
    assert!(!is_bmp("x.bmpx"));
    assert!(!is_bmp("x.png"));
    assert!(is_bmp("bmp"));
}

#[test]
fn only_link_one_is_a_link() {
    assert!(is_link(Some(1)));
    assert!(!is_link(Some(0)));
    assert!(!is_link(None));
}
