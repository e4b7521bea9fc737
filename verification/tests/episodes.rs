use rust_downloader::episodes::{
    choose_episode_links, extract_episode_number, episode_number_in, number_links, parse_episode_range,
    plan_episodes, read_number, sort_episodes, EpisodePlan, RangeChoice,
};

#[test]
fn extracts_episode_from_filename_pattern() {
    let url = "https://downloadwella.com/k2v5peuya0ge/Jujutsu.Kaisen.E26.(NKIRI.COM).mkv.html";
    assert_eq!(extract_episode_number(url), Some(26));
}

#[test]
fn does_not_extract_from_random_token() {
    let url = "https://downloadwella.com/t82kd6829me1/redirect";
    assert_eq!(extract_episode_number(url), None);
}

#[test]
fn parses_range_inputs() {
    assert_eq!(parse_episode_range("1-24"), Some((1, 24)));
    assert_eq!(parse_episode_range("24-1"), Some((1, 24)));
    assert_eq!(parse_episode_range("0"), Some((0, 0)));
    assert_eq!(parse_episode_range("all"), None);
}

#[test]
fn range_edge_cases() {
    assert_eq!(parse_episode_range(""), None);
    assert_eq!(parse_episode_range("   "), None);
    assert_eq!(parse_episode_range(" ALL "), None);
    assert_eq!(parse_episode_range("aLl"), None);
    assert_eq!(parse_episode_range("7"), Some((7, 7)));
    assert_eq!(parse_episode_range(" 3 - 9 "), Some((3, 9)));
    assert_eq!(parse_episode_range("+5"), Some((5, 5)));
    assert_eq!(parse_episode_range("5-0"), Some((0, 0)));
    assert_eq!(parse_episode_range("x"), None);
    assert_eq!(parse_episode_range("1-x"), None);
    assert_eq!(parse_episode_range("-3"), None);
    assert_eq!(parse_episode_range("1-2-3"), None);
    assert_eq!(parse_episode_range("4294967295"), Some((4294967295, 4294967295)));
    assert_eq!(parse_episode_range("4294967296"), None);
    assert_eq!(parse_episode_range("\u{3000}12\u{a0}"), Some((12, 12)));
}

#[test]
fn range_ends_commute_on_examples() {
    assert_eq!(parse_episode_range("3-9"), parse_episode_range("9-3"));
    assert_eq!(parse_episode_range(" 2 -x"), parse_episode_range("x- 2 "));
    assert_eq!(parse_episode_range("0-4"), parse_episode_range("4-0"));
}

#[test]
fn read_number_reads_digit_runs() {
    assert_eq!(read_number(b"ab123cd", 2), Some((123, 5)));
    assert_eq!(read_number(b"ab123cd", 0), None);
    assert_eq!(read_number(b"42", 0), Some((42, 2)));
    assert_eq!(read_number(b"42", 2), None);
    assert_eq!(read_number(b"42", 9), None);
    assert_eq!(read_number(b"99999999999x", 0), Some((u32::MAX, 11)));
}

#[test]
fn episode_patterns() {
    assert_eq!(episode_number_in("Show Episode 12 [HD].mkv"), Some(12));
    assert_eq!(episode_number_in("show-episode-07"), Some(7));
    assert_eq!(episode_number_in("show.s03e25.mkv"), Some(25));
    assert_eq!(episode_number_in("Show.S03E25.mkv"), Some(25));
    assert_eq!(episode_number_in("s1e2"), Some(2));
    assert_eq!(episode_number_in("xs03e25"), None);
    assert_eq!(episode_number_in("show.2se25.mkv"), Some(25));
    assert_eq!(episode_number_in("show_e4"), Some(4));
    assert_eq!(episode_number_in("Episode 0 then .e5"), Some(5));
    assert_eq!(episode_number_in("title.e12x"), None);
    assert_eq!(episode_number_in("e12"), None);
    assert_eq!(episode_number_in("the e0 file"), None);
    assert_eq!(episode_number_in("nothing here"), None);
}

#[test]
fn episode_from_plain_text_and_url_path() {
    assert_eq!(extract_episode_number("not a url .e9"), Some(9));
    assert_eq!(extract_episode_number("Show.S03E25.mkv"), Some(25));
    assert_eq!(extract_episode_number("https://host.com/episode-3/file"), None);
    assert_eq!(extract_episode_number("https://host.com/x/Show.E08.mkv"), Some(8));
}

fn s(x: &str) -> String {
    x.to_string()
}

#[test]
fn numbering_and_sorting() {
    let links = vec![s("https://a.com/x/Show.E03.mkv"), s("https://a.com/x/Show.E01.mkv"), s("https://a.com/x/readme"), s("https://a.com/y/Show.E03.mkv")];
    let numbered = number_links(&links);
    assert_eq!(numbered, vec![(3, links[0].clone()), (1, links[1].clone()), (3, links[3].clone())]);
    let sorted = sort_episodes(&numbered);
    assert_eq!(sorted, vec![(1, links[1].clone()), (3, links[0].clone())]);
}

#[test]
fn plans_episodes() {
    let links = vec![s("https://a.com/x/Show.E02.mkv"), s("https://a.com/x/Show.E01.mkv")];
    match plan_episodes("Show", &links) {
        EpisodePlan::Episodes { pages, by_order } => {
            assert!(!by_order);
            assert_eq!(pages, vec![(1, links[1].clone()), (2, links[0].clone())]);
        }
        EpisodePlan::Plain => panic!("expected episodes"),
    }
    let plain = vec![s("https://a.com/x/one"), s("https://a.com/x/two")];
    match plan_episodes("Season Episode Pack", &plain) {
        EpisodePlan::Episodes { pages, by_order } => {
            assert!(by_order);
            assert_eq!(pages, vec![(1, plain[0].clone()), (2, plain[1].clone())]);
        }
        EpisodePlan::Plain => panic!("expected episodes by order"),
    }
    assert!(matches!(plan_episodes("A Movie", &plain), EpisodePlan::Plain));
    assert!(matches!(plan_episodes("Episode", &vec![s("https://a.com/x/one")]), EpisodePlan::Plain));
}

#[test]
fn chooses_ranges() {
    let pages = vec![(1, s("l1")), (2, s("l2")), (4, s("l4"))];
    assert!(matches!(choose_episode_links(&pages, Some((0, 0))), RangeChoice::Stop));
    match choose_episode_links(&pages, None) {
        RangeChoice::All(v) => assert_eq!(v, vec![s("l1"), s("l2"), s("l4")]),
        _ => panic!(),
    }
    match choose_episode_links(&pages, Some((2, 9))) {
        RangeChoice::Beyond(v) => assert_eq!(v, vec![s("l1"), s("l2"), s("l4")]),
        _ => panic!(),
    }
    match choose_episode_links(&pages, Some((2, 4))) {
        RangeChoice::Selected(v) => assert_eq!(v, vec![s("l2"), s("l4")]),
        _ => panic!(),
    }
    match choose_episode_links(&pages, Some((1, 4))) {
        RangeChoice::Selected(v) => assert_eq!(v, vec![s("l1"), s("l2"), s("l4")]),
        _ => panic!(),
    }
    assert!(matches!(choose_episode_links(&pages, Some((3, 3))), RangeChoice::NoMatch));
}

#[test]
fn episode_ignores_ascii_case() {
    for name in ["Show.S03E25.mkv", "Jujutsu.Kaisen.E26.(NKIRI.COM).mkv", "My Episode 7", "title.e12x"] {
        let base = extract_episode_number(name);
        assert_eq!(extract_episode_number(&name.to_ascii_uppercase()), base);
        assert_eq!(extract_episode_number(&name.to_ascii_lowercase()), base);
    }
    assert_eq!(extract_episode_number("MY EPISODE 7"), Some(7));
}
