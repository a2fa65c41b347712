use recursive_scraper::file::{
    clean_url, derive_extension, links_from_html, process_headers, ContentType, FileType,
};
use recursive_scraper::middle::status_is_success;
use recursive_scraper::pattern::Pattern;

#[test]
fn regex_test() {
    assert!(!Pattern::compile("#").unwrap().is_match("https://sites.duke.edu/intersections/.*"));
}

#[test]
fn pattern_matches_and_rejects() {
    let p = Pattern::compile("^https://sites.duke.edu/intersections/.*").unwrap();
    assert!(p.is_match("https://sites.duke.edu/intersections/vocabulary-lessons/"));
    assert!(!p.is_match("https://www.rust-lang.org/"));
    assert!(Pattern::compile("foo(bar").is_none());
}

#[test]
fn classify_by_content_type() {
    let html = ContentType::Value("text/html; charset=utf-8".to_string());
    assert_eq!(process_headers(&html), FileType::Html);
    let exact = ContentType::Value("text/html".to_string());
    assert_eq!(process_headers(&exact), FileType::Html);
    let json = ContentType::Value("application/json".to_string());
    assert_eq!(process_headers(&json), FileType::Other);
    let near_miss = ContentType::Value("text/htm".to_string());
    assert_eq!(process_headers(&near_miss), FileType::Other);
    assert_eq!(process_headers(&ContentType::Absent), FileType::Other);
    assert_eq!(process_headers(&ContentType::Undecodable), FileType::Other);
}

#[test]
fn status_codes_in_2xx_range_succeed() {
    assert!(status_is_success(200));
    assert!(status_is_success(204));
    assert!(status_is_success(299));
    assert!(!status_is_success(199));
    assert!(!status_is_success(300));
    assert!(!status_is_success(404));
    assert!(!status_is_success(500));
}

#[test]
fn extension_derivation() {
    assert_eq!(derive_extension("http://h/a/b.PDF?x=1"), ".PDF");
    assert_eq!(derive_extension("http://h/a/b"), ".b");
    assert_eq!(derive_extension("http://h/"), ".");
    assert_eq!(derive_extension("http://h/x.tar.gz"), ".gz");
    assert_eq!(derive_extension("http://h/a/pic.png#frag"), ".png");
    assert_eq!(derive_extension("http://h/dir/file.txt"), ".txt");
}

#[test]
fn clean_url_strips_fragment() {
    assert_eq!(clean_url("http://h/a#frag"), "http://h/a");
    assert_eq!(clean_url("http://h/a"), "http://h/a");
    assert_eq!(clean_url("#x"), "");
}

#[test]
fn links_from_html_extracts_resolves_and_dedups() {
    let html = "<html><body><a href=\"/x#one\">first</a><a href=\"/x#two\">second</a><a href=\"sub/page.html\">relative</a><img src=\"pic.png\"><img src=\"pic.png\"></body></html>".to_string();
    let (text, hrefs, imgs) = links_from_html("http://s/base/", html.clone());
    assert_eq!(text, html);
    assert_eq!(
        hrefs,
        vec!["http://s/x".to_string(), "http://s/base/sub/page.html".to_string()]
    );
    assert_eq!(imgs, vec!["http://s/base/pic.png".to_string()]);
}

#[test]
fn links_from_html_keeps_image_fragments() {
    // Fragments are stripped from hrefs before joining, but image sources
    // are joined as written.
    let html = "<a href=\"/a#f\"></a><img src=\"/i#f\">".to_string();
    let (_text, hrefs, imgs) = links_from_html("http://s/", html);
    assert_eq!(hrefs, vec!["http://s/a".to_string()]);
    assert_eq!(imgs, vec!["http://s/i#f".to_string()]);
}

#[test]
fn links_from_html_with_unparsable_base_drops_all() {
    let html = "<a href=\"/x\"></a><img src=\"y.png\">".to_string();
    let (_text, hrefs, imgs) = links_from_html("not a url", html);
    assert!(hrefs.is_empty());
    assert!(imgs.is_empty());
}

#[test]
fn links_from_html_empty_document() {
    let (text, hrefs, imgs) = links_from_html("http://s/", String::new());
    assert_eq!(text, "");
    assert!(hrefs.is_empty());
    assert!(imgs.is_empty());
}
