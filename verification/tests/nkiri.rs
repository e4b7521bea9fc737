use rust_downloader::html::ElementInfo;
use rust_downloader::headers::HeaderValue;
use rust_downloader::links::{add_new_link, LinkSet};
use rust_downloader::nkiri::{
    accept_start_link, collect_search_results, confirmation_link, direct_links, download_pages,
    hidden_form_fields, links_file_path, links_file_text, redirect_outcome, resolve_location, result_choices,
    safe_file_name, search_results, search_url, start_final_links, RedirectOutcome, SearchResult,
    form_step, FormAction, FormEvent,
};

fn s(x: &str) -> String {
    x.to_string()
}

#[test]
fn search_url_encodes_term() {
    assert_eq!(search_url("one piece"), "https://thenkiri.com/?s=one%20piece&post_type=post");
    assert_eq!(search_url("a-b_c.d~e&f"), "https://thenkiri.com/?s=a-b_c.d~e%26f&post_type=post");
    assert_eq!(search_url("é"), "https://thenkiri.com/?s=%C3%A9&post_type=post");
}

#[test]
fn search_results_from_articles() {
    let info = |href: Option<&str>, alt: Option<&str>, text: &[&str]| {
        Some(ElementInfo { first: href.map(s), second: alt.map(s), texts: text.iter().map(|t| s(t)).collect() })
    };
    let links = vec![
        (info(Some("https://thenkiri.com/a/"), Some("  Title A "), &["x"]), None),
        (info(Some("https://thenkiri.com/a/"), Some("Dup"), &[]), None),
        (info(Some("https://other.com/b/"), Some("B"), &[]), None),
        (None, info(Some("https://thenkiri.com/c/"), Some("  "), &[" Title", "C "])),
        (info(Some("https://thenkiri.com/d/"), None, &["  "]), info(Some("https://thenkiri.com/z/"), Some("Z"), &[])),
        (info(Some("https://thenkiri.com/d/"), Some("D again"), &[]), None),
        (info(None, Some("E"), &[]), info(Some("https://thenkiri.com/e/"), Some("E"), &[])),
        (None, None),
    ];
    let res = collect_search_results(&links);
    let pairs: Vec<(String, String)> = res.into_iter().map(|r| (r.name, r.url)).collect();
    assert_eq!(pairs, vec![(s("Title A"), s("https://thenkiri.com/a/")), (s("Title C"), s("https://thenkiri.com/c/"))]);
}

#[test]
fn search_results_from_html() {
    let html = r#"<html><body>
      <article><div class="search-entry-inner"><div class="thumbnail"><a href="https://thenkiri.com/show-1/"><img alt="Show One"></a></div></div></article>
      <article><h2 class="entry-title"><a href="https://thenkiri.com/show-2/">Show <b>Two</b></a></h2></article>
      <article><h2 class="entry-title"><a href="https://elsewhere.com/x/">Other</a></h2></article>
    </body></html>"#;
    let res = search_results(html).unwrap();
    let pairs: Vec<(String, String)> = res.into_iter().map(|r| (r.name, r.url)).collect();
    assert_eq!(pairs, vec![(s("Show One"), s("https://thenkiri.com/show-1/")), (s("Show  Two"), s("https://thenkiri.com/show-2/"))]);
}

#[test]
fn direct_links_skip_seen_and_foreign() {
    let html = r#"<a href="https://downloadwella.com/1">1</a><a href="https://x.com/2">2</a>
      <a href="https://ds2.nkiserv.com/3">3</a><a href="https://downloadwella.com/1">again</a><a href="https://wetafiles.com/4">4</a>"#;
    let mut seen = LinkSet::new();
    seen.insert("https://wetafiles.com/4");
    let v = direct_links(html, &mut seen).unwrap();
    assert_eq!(v, vec![s("https://downloadwella.com/1"), s("https://ds2.nkiserv.com/3")]);
    assert!(seen.contains("https://ds2.nkiserv.com/3"));
    assert!(!seen.contains("https://x.com/2"));
}

#[test]
fn download_pages_from_buttons() {
    let html = r#"<section class="elementor-section"><a class="elementor-button" href="https://downloadwella.com/a">A</a>
      <a class="elementor-button" href="https://x.com/b">B</a><a class="elementor-button" href="https://nkiserv.com/c">C</a></section>
      <a class="elementor-button" href="https://downloadwella.com/outside">D</a>"#;
    assert_eq!(download_pages(html).unwrap(), vec![s("https://downloadwella.com/a"), s("https://nkiserv.com/c")]);
}

#[test]
fn hidden_fields_of_form() {
    let html = r#"<form name="F1"><input type="hidden" name="op" value="download2"><input type="hidden" name="id">
      <input type="hidden" value="noname"><input type="text" name="shown" value="x"></form>
      <form name="F2"><input type="hidden" name="other" value="y"></form>"#;
    assert_eq!(hidden_form_fields(html).unwrap(), vec![(s("op"), s("download2")), (s("id"), s(""))]);
    assert!(hidden_form_fields("<p>no form</p>").unwrap().is_empty());
}

#[test]
fn locations_resolve_against_page() {
    assert_eq!(resolve_location("https://h.com/a/b", "http://x.com/f"), Some(s("http://x.com/f")));
    assert_eq!(resolve_location("https://h.com/a/b", "/d/file.mkv"), Some(s("https://h.com/d/file.mkv")));
    assert_eq!(resolve_location("https://h.com/a/b", "c"), Some(s("https://h.com/a/c")));
    assert_eq!(resolve_location("not a url", "c"), None);
}

#[test]
fn redirect_outcomes() {
    match redirect_outcome("https://h.com/p", &HeaderValue::Text(s("/d/f")), "https://h.com/p") {
        RedirectOutcome::Location(Some(u)) => assert_eq!(u, "https://h.com/d/f"),
        _ => panic!(),
    }
    match redirect_outcome("https://h.com/p", &HeaderValue::Unreadable, "https://cdn.com/f") {
        RedirectOutcome::Moved(u) => assert_eq!(u, "https://cdn.com/f"),
        _ => panic!(),
    }
    assert!(matches!(redirect_outcome("https://h.com/p", &HeaderValue::Missing, "https://h.com/p"), RedirectOutcome::Stayed));
}

#[test]
fn confirmation_pages() {
    let page = "https://h.com/p";
    let html = r#"<a href="/help">Help</a><a href="/get/x">Click to START <b>Download</b></a><a href="/get/z">Start Download</a><a href="/d/y">d</a>"#;
    assert_eq!(confirmation_link(page, html).unwrap(), Some(s("https://h.com/get/z")));
    let html = r#"<a href="https://cdn.com/d/y">file</a>"#;
    assert_eq!(confirmation_link(page, html).unwrap(), Some(s("https://cdn.com/d/y")));
    assert_eq!(confirmation_link(page, "<a href=\"/x\">x</a>").unwrap(), None);
}

#[test]
fn start_links_are_taken_once() {
    let mut links = Vec::new();
    let mut seen = LinkSet::new();
    assert!(!accept_start_link(&mut links, &mut seen, "https://h.com/p", s("https://h.com/p")));
    assert!(accept_start_link(&mut links, &mut seen, "https://h.com/p", s("https://cdn.com/f")));
    assert!(!accept_start_link(&mut links, &mut seen, "https://h.com/p", s("https://cdn.com/f")));
    assert_eq!(links, vec![s("https://cdn.com/f")]);
    assert!(add_new_link(&mut links, &mut seen, s("https://h.com/p")));
    assert!(!add_new_link(&mut links, &mut seen, s("https://h.com/p")));
    assert_eq!(links.len(), 2);
}

#[test]
fn link_set_behaves_as_a_set() {
    let mut set = LinkSet::new();
    assert!(!set.contains("a"));
    assert!(set.insert("a"));
    assert!(!set.insert("a"));
    assert!(set.contains("a"));
    set.clear();
    assert!(!set.contains("a"));
}

#[test]
fn final_links_start() {
    let mut seen = LinkSet::new();
    seen.insert("x");
    assert_eq!(start_final_links(false, vec![s("x")], &mut seen), vec![s("x")]);
    assert!(seen.contains("x"));
    assert!(start_final_links(true, vec![s("x")], &mut seen).is_empty());
    assert!(!seen.contains("x"));
}

#[test]
fn names_and_files() {
    assert_eq!(safe_file_name("One Piece: Film RED (2022)"), "one_piece__film_red__2022_");
    assert_eq!(safe_file_name("Émilie"), "émilie");
    assert_eq!(links_file_path("My Show"), "downloads/my_show.txt");
    assert_eq!(links_file_text(&vec![s("a"), s("b")]), "a\nb\n");
    assert_eq!(links_file_text(&vec![]), "");
    let res = vec![SearchResult { name: s("A"), url: s("u") }, SearchResult { name: s("B"), url: s("v") }];
    assert_eq!(result_choices(&res), vec![s("1. A"), s("2. B")]);
}

#[test]
fn form_submission_steps() {
    let page = "https://h.com/p";
    let mut links = Vec::new();
    let mut seen = LinkSet::new();
    assert!(matches!(form_step(1, FormEvent::SendFailed, page, &mut links, &mut seen), FormAction::Retry { next: 2 }));
    assert!(matches!(
        form_step(3, FormEvent::SendFailed, page, &mut links, &mut seen),
        FormAction::Finish { resolved: false, added: false }
    ));
    assert!(matches!(
        form_step(1, FormEvent::Answered(RedirectOutcome::Stayed), page, &mut links, &mut seen),
        FormAction::ReadBody
    ));
    assert!(matches!(
        form_step(2, FormEvent::ConfirmationRead(None), page, &mut links, &mut seen),
        FormAction::Retry { next: 3 }
    ));
    assert!(matches!(
        form_step(2, FormEvent::ConfirmationRead(Some(s(page))), page, &mut links, &mut seen),
        FormAction::Retry { next: 3 }
    ));
    assert!(matches!(
        form_step(1, FormEvent::Answered(RedirectOutcome::Moved(s("https://cdn.com/a"))), page, &mut links, &mut seen),
        FormAction::Finish { resolved: true, added: true }
    ));
    assert!(matches!(
        form_step(1, FormEvent::Answered(RedirectOutcome::Location(Some(s("https://cdn.com/a")))), page, &mut links, &mut seen),
        FormAction::Finish { resolved: true, added: false }
    ));
    assert!(matches!(
        form_step(3, FormEvent::ConfirmationRead(Some(s("https://cdn.com/a"))), page, &mut links, &mut seen),
        FormAction::Finish { resolved: false, added: false }
    ));
    assert!(matches!(
        form_step(3, FormEvent::ConfirmationRead(Some(s("https://cdn.com/b"))), page, &mut links, &mut seen),
        FormAction::Finish { resolved: true, added: true }
    ));
    assert_eq!(links, vec![s("https://cdn.com/a"), s("https://cdn.com/b")]);
}
