//! Searching Thenkiri and turning its pages into download links.
use vstd::prelude::*;
use crate::text::{
    contains_seq, trimmed, joined, occurs_at, str_contains, str_starts_with, join_with_spaces,
    trim_to_string, push_str,
};
use crate::html::{ElementInfo, infos_view, opt_info_view, scoped_view, select_elements, select_scoped_links,
    selected_elements, scoped_links};
use crate::links::{LinkSet, add_new_link};
use crate::urls::{url_encode, percent_encoded, join_url, url_joined};
use crate::headers::HeaderValue;
use vstd::string::StringSliceAdditionalSpecFns;

verus! {

/// How often a download form is submitted before the link is given up.
pub const FORM_SUBMIT_ATTEMPTS: u32 = 3;

/// The view of what is read of one element.
pub type InfoView = (Option<Seq<char>>, Option<Seq<char>>, Seq<Seq<char>>);

/// The search page for a title.
pub open spec fn search_url_of(term: Seq<char>) -> Seq<char> {
    "https://thenkiri.com/?s="@ + percent_encoded(vstd::utf8::encode_utf8(term)) + "&post_type=post"@
}

/// The URL of the Thenkiri search for `term`, the term percent-encoded.
pub fn search_url(term: &str) -> (r: String)
    ensures
        r@ == search_url_of(term@),
{
    let mut out = String::new();
    push_str(&mut out, "https://thenkiri.com/?s=");
    let enc = url_encode(term);
    push_str(&mut out, enc.as_str());
    push_str(&mut out, "&post_type=post");
    out
}

/// One search hit: the title shown and the post it links to.
pub struct SearchResult {
    pub name: String,
    pub url: String,
}

impl View for SearchResult {
    type V = (Seq<char>, Seq<char>);

    open spec fn view(&self) -> (Seq<char>, Seq<char>) {
        (self.name@, self.url@)
    }
}

/// The title of a search hit: the image's `alt` text when it is not blank,
/// else the link's text; trimmed either way.
pub open spec fn hit_name(l: InfoView) -> Seq<char> {
    match l.1 {
        Some(alt) => if trimmed(alt).len() > 0 {
            trimmed(alt)
        } else {
            trimmed(joined(l.2, " "@))
        },
        None => trimmed(joined(l.2, " "@)),
    }
}

/// The link an article stands for: its thumbnail link, else its title link.
pub open spec fn article_link(a: (Option<InfoView>, Option<InfoView>)) -> Option<InfoView> {
    match a.0 {
        Some(l) => Some(l),
        None => a.1,
    }
}

/// The search hits of an article list, and the posts seen: an article counts
/// when its link goes to a `thenkiri.com/` page not seen before and its title is
/// not blank; a link with a blank title is still marked seen.
pub open spec fn search_fold(links: Seq<(Option<InfoView>, Option<InfoView>)>) -> (Seq<(Seq<char>, Seq<char>)>, Set<Seq<char>>)
    decreases links.len(),
{
    if links.len() == 0 {
        (Seq::empty(), Set::empty())
    } else {
        let prev = search_fold(links.drop_last());
        match article_link(links.last()) {
            Some(l) => match l.0 {
                Some(href) => if !contains_seq(href, "thenkiri.com/"@) || prev.1.contains(href) {
                    prev
                } else if hit_name(l).len() > 0 {
                    (prev.0.push((hit_name(l), href)), prev.1.insert(href))
                } else {
                    (prev.0, prev.1.insert(href))
                },
                None => prev,
            },
            None => prev,
        }
    }
}

/// The search hits name each post once, and every post they name is marked seen.
pub proof fn law_search_hits_distinct(links: Seq<(Option<InfoView>, Option<InfoView>)>)
    ensures
        ({
            let (hits, seen) = search_fold(links);
            &&& hits.map_values(|h: (Seq<char>, Seq<char>)| h.1).no_duplicates()
            &&& forall|i: int| 0 <= i < hits.len() ==> seen.contains(#[trigger] hits[i].1)
        }),
    decreases links.len(),
{
    if links.len() > 0 {
        law_search_hits_distinct(links.drop_last());
        let prev = search_fold(links.drop_last());
        let now = search_fold(links);
        let urls = now.0.map_values(|h: (Seq<char>, Seq<char>)| h.1);
        let purls = prev.0.map_values(|h: (Seq<char>, Seq<char>)| h.1);
        if now.0.len() > prev.0.len() {
            let href = now.0.last().1;
            assert(now.0 == prev.0.push(now.0.last()));
            assert(urls =~= purls.push(href));
            assert(!prev.1.contains(href));
            assert forall|i: int, j: int| 0 <= i < urls.len() && 0 <= j < urls.len() && i != j implies urls[i] != urls[j] by {
                if i < purls.len() && j < purls.len() {
                    assert(urls[i] == purls[i] && urls[j] == purls[j]);
                } else if i < purls.len() {
                    assert(prev.1.contains(prev.0[i].1));
                } else {
                    assert(prev.1.contains(prev.0[j].1));
                }
            }
            assert forall|i: int| 0 <= i < now.0.len() implies now.1.contains(#[trigger] now.0[i].1) by {
                if i < prev.0.len() {
                    assert(now.0[i] == prev.0[i]);
                }
            }
        } else {
            assert(now.0 == prev.0);
        }
    }
}

/// The title of a search hit.
fn hit_title(info: &ElementInfo) -> (r: String)
    ensures
        r@ == hit_name(info@),
{
    match &info.second {
        Some(alt) => {
            let t = trim_to_string(alt.as_str());
            if !t.as_str().is_empty() {
                return t;
            }
        },
        None => {},
    }
    let text = join_with_spaces(&info.texts);
    trim_to_string(text.as_str())
}

/// The search hits among the links found in the articles of a result page.
pub fn collect_search_results(links: &Vec<(Option<ElementInfo>, Option<ElementInfo>)>) -> (r: Vec<SearchResult>)
    ensures
        r@.map_values(|h: SearchResult| h@) == search_fold(scoped_view(links@)).0,
{
    let mut out: Vec<SearchResult> = Vec::new();
    let mut seen = LinkSet::new();
    let mut i: usize = 0;
    while i < links.len()
        invariant
            i <= links.len(),
            out@.map_values(|h: SearchResult| h@) == search_fold(scoped_view(links@).subrange(0, i as int)).0,
            seen@ == search_fold(scoped_view(links@).subrange(0, i as int)).1,
        decreases links.len() - i,
    {
        let ghost pre = scoped_view(links@).subrange(0, i as int);
        let ghost post = scoped_view(links@).subrange(0, i + 1);
        assert(post.drop_last() =~= pre);
        assert(post.last() == scoped_view(links@)[i as int]);
        let ghost before = out@;
        let chosen = match &links[i].0 {
            Some(a) => Some(a),
            None => links[i].1.as_ref(),
        };
        match chosen {
            Some(info) => match &info.first {
                Some(href) => {
                    let thenkiri = str_contains(href.as_str(), "thenkiri.com/");
                    if thenkiri && !seen.contains(href.as_str()) {
                        seen.insert(href.as_str());
                        let name = hit_title(info);
                        if !name.as_str().is_empty() {
                            out.push(SearchResult { name, url: href.clone() });
                            assert(out@.map_values(|h: SearchResult| h@) =~= before.map_values(|h: SearchResult| h@).push((hit_name(info@), href@)));
                        }
                    }
                },
                None => {},
            },
            None => {},
        }
        i += 1;
    }
    assert(scoped_view(links@).subrange(0, i as int) =~= scoped_view(links@));
    out
}

/// Where the article links of a search page are found.
pub open spec fn search_page_links(html: Seq<char>) -> Option<Seq<(Option<InfoView>, Option<InfoView>)>> {
    scoped_links(html, "article"@, "div.search-entry-inner div.thumbnail a"@,
        "h2.search-entry-title a, h2.entry-title a"@, "img"@, "href"@, "alt"@)
}

/// The search hits of a search result page; `None` when the page could not be
/// searched for its articles.
pub fn search_results(html: &str) -> (r: Option<Vec<SearchResult>>)
    ensures
        match search_page_links(html@) {
            Some(l) => r matches Some(v) && v@.map_values(|h: SearchResult| h@) == search_fold(l).0,
            None => r is None,
        },
{
    match select_scoped_links(html, "article", "div.search-entry-inner div.thumbnail a",
        "h2.search-entry-title a, h2.entry-title a", "img", "href", "alt") {
        Some(links) => Some(collect_search_results(&links)),
        None => None,
    }
}

/// A link straight to a file host: `nkiserv.com`, `ds2.nkiserv.com`,
/// `downloadwella.com` or `wetafiles.com` occurs in it.
pub open spec fn is_direct_host_link(href: Seq<char>) -> bool {
    ||| contains_seq(href, "nkiserv.com"@)
    ||| contains_seq(href, "ds2.nkiserv.com"@)
    ||| contains_seq(href, "downloadwella.com"@)
    ||| contains_seq(href, "wetafiles.com"@)
}

fn direct_host_link(href: &str) -> (r: bool)
    ensures
        r == is_direct_host_link(href@),
{
    str_contains(href, "nkiserv.com") || str_contains(href, "ds2.nkiserv.com") || str_contains(
        href,
        "downloadwella.com",
    ) || str_contains(href, "wetafiles.com")
}

/// The links of a page that go straight to a file host, each once, skipping
/// those in `seen`; and `seen` with them added.
pub open spec fn direct_fold(links: Seq<InfoView>, seen: Set<Seq<char>>) -> (Seq<Seq<char>>, Set<Seq<char>>)
    decreases links.len(),
{
    if links.len() == 0 {
        (Seq::empty(), seen)
    } else {
        let prev = direct_fold(links.drop_last(), seen);
        match links.last().0 {
            Some(href) => if is_direct_host_link(href) && !prev.1.contains(href) {
                (prev.0.push(href), prev.1.insert(href))
            } else {
                prev
            },
            None => prev,
        }
    }
}

/// The links to file hosts among `links` (read by their `href`), each once and
/// none of those in `seen`, which records them.
pub fn collect_direct_links(links: &Vec<ElementInfo>, seen: &mut LinkSet) -> (r: Vec<String>)
    ensures
        r.deep_view() == direct_fold(infos_view(links@), old(seen)@).0,
        final(seen)@ == direct_fold(infos_view(links@), old(seen)@).1,
{
    let mut out: Vec<String> = Vec::new();
    let mut i: usize = 0;
    while i < links.len()
        invariant
            i <= links.len(),
            out.deep_view() == direct_fold(infos_view(links@).subrange(0, i as int), old(seen)@).0,
            seen@ == direct_fold(infos_view(links@).subrange(0, i as int), old(seen)@).1,
        decreases links.len() - i,
    {
        let ghost pre = infos_view(links@).subrange(0, i as int);
        let ghost post = infos_view(links@).subrange(0, i + 1);
        assert(post.drop_last() =~= pre);
        assert(post.last() == infos_view(links@)[i as int]);
        match &links[i].first {
            Some(href) => {
                if direct_host_link(href.as_str()) {
                    add_new_link(&mut out, seen, href.clone());
                }
            },
            None => {},
        }
        i += 1;
    }
    assert(infos_view(links@).subrange(0, i as int) =~= infos_view(links@));
    out
}

/// The direct host links of a page are distinct, none was seen before, and all
/// are seen afterwards.
pub proof fn law_direct_links_new_and_distinct(links: Seq<InfoView>, seen: Set<Seq<char>>)
    ensures
        ({
            let (found, after) = direct_fold(links, seen);
            &&& found.no_duplicates()
            &&& forall|i: int| 0 <= i < found.len() ==> !seen.contains(#[trigger] found[i])
                && after.contains(found[i])
        }),
    decreases links.len(),
{
    if links.len() > 0 {
        law_direct_links_new_and_distinct(links.drop_last(), seen);
        let prev = direct_fold(links.drop_last(), seen);
        let now = direct_fold(links, seen);
        lemma_direct_fold_grows(links.drop_last(), seen);
        if now.0.len() > prev.0.len() {
            let href = now.0.last();
            assert(now.0 == prev.0.push(href));
            assert(!prev.1.contains(href));
            assert forall|i: int, j: int| 0 <= i < now.0.len() && 0 <= j < now.0.len() && i != j implies now.0[i] != now.0[j] by {
                if i < prev.0.len() && j < prev.0.len() {
                } else if i < prev.0.len() {
                    assert(prev.1.contains(prev.0[i]));
                } else {
                    assert(prev.1.contains(prev.0[j]));
                }
            }
            assert forall|i: int| 0 <= i < now.0.len() implies !seen.contains(#[trigger] now.0[i]) && now.1.contains(now.0[i]) by {
                if i < prev.0.len() {
                    assert(now.0[i] == prev.0[i]);
                }
            }
        } else {
            assert(now == prev);
        }
    }
}

proof fn lemma_direct_fold_grows(links: Seq<InfoView>, seen: Set<Seq<char>>)
    ensures
        seen.subset_of(direct_fold(links, seen).1),
    decreases links.len(),
{
    if links.len() > 0 {
        lemma_direct_fold_grows(links.drop_last(), seen);
    }
}

proof fn lemma_direct_fold_seen(links: Seq<InfoView>, seen: Set<Seq<char>>)
    ensures
        forall|x: Seq<char>| #[trigger] direct_fold(links, seen).1.contains(x) <==> seen.contains(x)
            || direct_fold(links, seen).0.contains(x),
    decreases links.len(),
{
    if links.len() > 0 {
        let prev = direct_fold(links.drop_last(), seen);
        let now = direct_fold(links, seen);
        lemma_direct_fold_seen(links.drop_last(), seen);
        assert forall|x: Seq<char>| #[trigger] now.1.contains(x) <==> seen.contains(x) || now.0.contains(x) by {
            if now != prev {
                let h = now.0.last();
                assert(now.0 == prev.0.push(h));
                if prev.0.contains(x) {
                    let m = choose|m: int| 0 <= m < prev.0.len() && prev.0[m] == x;
                    assert(now.0[m] == x);
                }
                if now.0.contains(x) && x != h {
                    let m = choose|m: int| 0 <= m < now.0.len() && now.0[m] == x;
                    assert(m < prev.0.len());
                    assert(prev.0[m] == x);
                }
                if x == h {
                    assert(now.0[now.0.len() - 1] == x);
                }
            }
        }
    }
}

/// Every link of a page whose `href` names `nkiserv.com`, `ds2.nkiserv.com`,
/// `downloadwella.com` or `wetafiles.com` and was not seen before is among the
/// direct host links found, and every link found is the `href` of a link of the
/// page and names one of those hosts.
pub proof fn law_direct_links_keep_host_links(links: Seq<InfoView>, seen: Set<Seq<char>>)
    ensures
        forall|k: int| 0 <= k < links.len() && (#[trigger] links[k]).0 is Some && !seen.contains(
            links[k].0.unwrap(),
        ) && ({
            let h = links[k].0.unwrap();
            contains_seq(h, "nkiserv.com"@) || contains_seq(h, "ds2.nkiserv.com"@) || contains_seq(
                h,
                "downloadwella.com"@,
            ) || contains_seq(h, "wetafiles.com"@)
        }) ==> direct_fold(links, seen).0.contains(links[k].0.unwrap()),
        forall|m: int| 0 <= m < direct_fold(links, seen).0.len() ==> ({
            let h = #[trigger] direct_fold(links, seen).0[m];
            &&& contains_seq(h, "nkiserv.com"@) || contains_seq(h, "ds2.nkiserv.com"@)
                || contains_seq(h, "downloadwella.com"@) || contains_seq(h, "wetafiles.com"@)
            &&& exists|k: int| 0 <= k < links.len() && links[k].0 == Some(h)
        }),
    decreases links.len(),
{
    if links.len() > 0 {
        let l0 = links.drop_last();
        law_direct_links_keep_host_links(l0, seen);
        lemma_direct_fold_seen(l0, seen);
        let prev = direct_fold(l0, seen);
        let now = direct_fold(links, seen);
        assert(now.0 == prev.0 || now.0 == prev.0.push(now.0.last()));
        assert forall|k: int| 0 <= k < links.len() && (#[trigger] links[k]).0 is Some && !seen.contains(
            links[k].0.unwrap(),
        ) && ({
            let h = links[k].0.unwrap();
            contains_seq(h, "nkiserv.com"@) || contains_seq(h, "ds2.nkiserv.com"@) || contains_seq(
                h,
                "downloadwella.com"@,
            ) || contains_seq(h, "wetafiles.com"@)
        }) implies now.0.contains(links[k].0.unwrap()) by {
            let h = links[k].0.unwrap();
            if k < l0.len() {
                assert(l0[k] == links[k]);
                assert(prev.0.contains(h));
                let m = choose|m: int| 0 <= m < prev.0.len() && prev.0[m] == h;
                assert(now.0[m] == h);
            } else {
                if prev.1.contains(h) {
                    assert(prev.0.contains(h));
                    let m = choose|m: int| 0 <= m < prev.0.len() && prev.0[m] == h;
                    assert(now.0[m] == h);
                } else {
                    assert(now.0.last() == h);
                    assert(now.0[now.0.len() - 1] == h);
                }
            }
        }
        assert forall|m: int| 0 <= m < now.0.len() implies ({
            let h = #[trigger] now.0[m];
            &&& contains_seq(h, "nkiserv.com"@) || contains_seq(h, "ds2.nkiserv.com"@)
                || contains_seq(h, "downloadwella.com"@) || contains_seq(h, "wetafiles.com"@)
            &&& exists|k: int| 0 <= k < links.len() && links[k].0 == Some(h)
        }) by {
            if m < prev.0.len() {
                assert(now.0[m] == prev.0[m]);
                let h = prev.0[m];
                let k = choose|k: int| 0 <= k < l0.len() && l0[k].0 == Some(h);
                assert(links[k] == l0[k]);
            } else {
                assert(links[links.len() - 1].0 == Some(now.0[m]));
            }
        }
    }
}

/// The links of a post page, read by their `href`.
pub open spec fn page_anchors(html: Seq<char>) -> Option<Seq<InfoView>> {
    selected_elements(html, "a"@, "href"@, "href"@)
}

/// The links of a post page that go straight to a file host, each once and none
/// already in `seen`; `None` when the page could not be searched for links.
pub fn direct_links(html: &str, seen: &mut LinkSet) -> (r: Option<Vec<String>>)
    ensures
        match page_anchors(html@) {
            Some(l) => r matches Some(v) && v.deep_view() == direct_fold(l, old(seen)@).0
                && final(seen)@ == direct_fold(l, old(seen)@).1,
            None => r is None && final(seen)@ == old(seen)@,
        },
{
    match select_elements(html, "a", "href", "href") {
        Some(links) => Some(collect_direct_links(&links, seen)),
        None => None,
    }
}

/// A download button that leads to a file host's page: `downloadwella.com`,
/// `wetafiles.com` or `nkiserv.com` occurs in it.
pub open spec fn is_host_page_link(href: Seq<char>) -> bool {
    ||| contains_seq(href, "downloadwella.com"@)
    ||| contains_seq(href, "wetafiles.com"@)
    ||| contains_seq(href, "nkiserv.com"@)
}

/// The `href`s of `links` that lead to a file host's page, in order.
pub open spec fn host_pages(links: Seq<InfoView>) -> Seq<Seq<char>>
    decreases links.len(),
{
    if links.len() == 0 {
        Seq::empty()
    } else {
        let prev = host_pages(links.drop_last());
        match links.last().0 {
            Some(href) => if is_host_page_link(href) {
                prev.push(href)
            } else {
                prev
            },
            None => prev,
        }
    }
}

/// The download buttons of a post page that lead to a file host's page, in order.
pub fn collect_host_pages(links: &Vec<ElementInfo>) -> (r: Vec<String>)
    ensures
        r.deep_view() == host_pages(infos_view(links@)),
{
    let mut out: Vec<String> = Vec::new();
    let mut i: usize = 0;
    while i < links.len()
        invariant
            i <= links.len(),
            out.deep_view() == host_pages(infos_view(links@).subrange(0, i as int)),
        decreases links.len() - i,
    {
        let ghost pre = infos_view(links@).subrange(0, i as int);
        let ghost post = infos_view(links@).subrange(0, i + 1);
        assert(post.drop_last() =~= pre);
        assert(post.last() == infos_view(links@)[i as int]);
        match &links[i].first {
            Some(href) => {
                if str_contains(href.as_str(), "downloadwella.com") || str_contains(href.as_str(), "wetafiles.com")
                    || str_contains(href.as_str(), "nkiserv.com") {
                    let ghost b = out.deep_view();
                    out.push(href.clone());
                    assert(out.deep_view() =~= b.push(href@));
                }
            },
            None => {},
        }
        i += 1;
    }
    assert(infos_view(links@).subrange(0, i as int) =~= infos_view(links@));
    out
}

/// Every download button whose `href` names `downloadwella.com`,
/// `wetafiles.com` or `nkiserv.com` is kept, and every page kept is the `href`
/// of a button and names one of those hosts.
pub proof fn law_host_pages_keep_host_buttons(links: Seq<InfoView>)
    ensures
        forall|k: int| 0 <= k < links.len() && (#[trigger] links[k]).0 is Some && ({
            let h = links[k].0.unwrap();
            contains_seq(h, "downloadwella.com"@) || contains_seq(h, "wetafiles.com"@)
                || contains_seq(h, "nkiserv.com"@)
        }) ==> host_pages(links).contains(links[k].0.unwrap()),
        forall|m: int| 0 <= m < host_pages(links).len() ==> ({
            let h = #[trigger] host_pages(links)[m];
            &&& contains_seq(h, "downloadwella.com"@) || contains_seq(h, "wetafiles.com"@)
                || contains_seq(h, "nkiserv.com"@)
            &&& exists|k: int| 0 <= k < links.len() && links[k].0 == Some(h)
        }),
    decreases links.len(),
{
    if links.len() > 0 {
        let prev = links.drop_last();
        law_host_pages_keep_host_buttons(prev);
        let hp = host_pages(links);
        let pp = host_pages(prev);
        assert forall|k: int| 0 <= k < links.len() && (#[trigger] links[k]).0 is Some && ({
            let h = links[k].0.unwrap();
            contains_seq(h, "downloadwella.com"@) || contains_seq(h, "wetafiles.com"@)
                || contains_seq(h, "nkiserv.com"@)
        }) implies hp.contains(links[k].0.unwrap()) by {
            let h = links[k].0.unwrap();
            if k < prev.len() {
                assert(prev[k] == links[k]);
                assert(pp.contains(h));
                let m = choose|m: int| 0 <= m < pp.len() && pp[m] == h;
                if hp != pp {
                    assert(hp[m] == pp[m]);
                }
            } else {
                assert(hp.last() == h);
            }
        }
        assert forall|m: int| 0 <= m < hp.len() implies ({
            let h = #[trigger] hp[m];
            &&& contains_seq(h, "downloadwella.com"@) || contains_seq(h, "wetafiles.com"@)
                || contains_seq(h, "nkiserv.com"@)
            &&& exists|k: int| 0 <= k < links.len() && links[k].0 == Some(h)
        }) by {
            if m < pp.len() {
                assert(hp[m] == pp[m]);
                let h = pp[m];
                let k = choose|k: int| 0 <= k < prev.len() && prev[k].0 == Some(h);
                assert(links[k] == prev[k]);
            } else {
                assert(links[links.len() - 1].0 == Some(hp[m]));
            }
        }
    }
}

/// The download buttons of a post page, read by their `href`.
pub open spec fn page_buttons(html: Seq<char>) -> Option<Seq<InfoView>> {
    selected_elements(html, "section.elementor-section a.elementor-button"@, "href"@, "href"@)
}

/// The pages of file hosts that the download buttons of a post page lead to;
/// `None` when the page could not be searched for buttons.
pub fn download_pages(html: &str) -> (r: Option<Vec<String>>)
    ensures
        match page_buttons(html@) {
            Some(l) => r matches Some(v) && v.deep_view() == host_pages(l),
            None => r is None,
        },
{
    match select_elements(html, "section.elementor-section a.elementor-button", "href", "href") {
        Some(links) => Some(collect_host_pages(&links)),
        None => None,
    }
}

/// The fields of a download form: each input with a `name`, with its `value`
/// (blank when it has none).
pub open spec fn form_fields_of(inputs: Seq<InfoView>) -> Seq<(Seq<char>, Seq<char>)>
    decreases inputs.len(),
{
    if inputs.len() == 0 {
        Seq::empty()
    } else {
        let prev = form_fields_of(inputs.drop_last());
        match inputs.last().0 {
            Some(name) => prev.push((name, match inputs.last().1 {
                Some(v) => v,
                None => Seq::empty(),
            })),
            None => prev,
        }
    }
}

/// The view of a list of name and value pairs.
pub open spec fn pairs_view(v: Seq<(String, String)>) -> Seq<(Seq<char>, Seq<char>)> {
    v.map_values(|p: (String, String)| (p.0@, p.1@))
}

/// The named fields among the inputs of a download form, in order.
pub fn collect_form_fields(inputs: &Vec<ElementInfo>) -> (r: Vec<(String, String)>)
    ensures
        pairs_view(r@) == form_fields_of(infos_view(inputs@)),
{
    let mut out: Vec<(String, String)> = Vec::new();
    let mut i: usize = 0;
    while i < inputs.len()
        invariant
            i <= inputs.len(),
            pairs_view(out@) == form_fields_of(infos_view(inputs@).subrange(0, i as int)),
        decreases inputs.len() - i,
    {
        let ghost pre = infos_view(inputs@).subrange(0, i as int);
        let ghost post = infos_view(inputs@).subrange(0, i + 1);
        assert(post.drop_last() =~= pre);
        assert(post.last() == infos_view(inputs@)[i as int]);
        match &inputs[i].first {
            Some(name) => {
                let value = match &inputs[i].second {
                    Some(v) => v.clone(),
                    None => String::new(),
                };
                let ghost b = out@;
                out.push((name.clone(), value));
                assert(pairs_view(out@) =~= pairs_view(b).push((name@, value@)));
            },
            None => {},
        }
        i += 1;
    }
    assert(infos_view(inputs@).subrange(0, i as int) =~= infos_view(inputs@));
    out
}

/// The hidden inputs of the download form of a file host's page.
pub open spec fn page_form_inputs(html: Seq<char>) -> Option<Seq<InfoView>> {
    selected_elements(html, "form[name=\"F1\"] input[type=\"hidden\"]"@, "name"@, "value"@)
}

/// The hidden fields of a file host's download form; `None` when the page could
/// not be searched for them.
pub fn hidden_form_fields(html: &str) -> (r: Option<Vec<(String, String)>>)
    ensures
        match page_form_inputs(html@) {
            Some(l) => r matches Some(v) && pairs_view(v@) == form_fields_of(l),
            None => r is None,
        },
{
    match select_elements(html, "form[name=\"F1\"] input[type=\"hidden\"]", "name", "value") {
        Some(inputs) => Some(collect_form_fields(&inputs)),
        None => None,
    }
}

/// Where a link found on `page` leads: itself when it starts with `http`, else
/// the link resolved against the page's URL (`None` when it cannot be).
pub open spec fn resolved_location(page: Seq<char>, link: Seq<char>) -> Option<Seq<char>> {
    if occurs_at(link, "http"@, 0) {
        Some(link)
    } else {
        url_joined(page, link)
    }
}

/// `link` resolved against the URL of the page it was found on.
pub fn resolve_location(page: &str, link: &str) -> (r: Option<String>)
    ensures
        r.deep_view() == resolved_location(page@, link@),
{
    if str_starts_with(link, "http") {
        Some(link.to_owned())
    } else {
        join_url(page, link)
    }
}

/// What the answer to a submitted download form says.
pub enum RedirectOutcome {
    /// A readable `Location` header: where it leads (`None` when it cannot be resolved).
    Location(Option<String>),
    /// No usable `Location`, but the answer came from another URL: that URL.
    Moved(String),
    /// Neither: the answer has to be read for a link.
    Stayed,
}

/// What the answer to the download form of `page` says, from its `Location`
/// header and the URL it finally came from.
pub fn redirect_outcome(page: &str, location: &HeaderValue, response_url: &str) -> (r: RedirectOutcome)
    ensures
        match *location {
            HeaderValue::Text(loc) => r matches RedirectOutcome::Location(u) && u.deep_view()
                == resolved_location(page@, loc@),
            _ => if response_url@ != page@ {
                r matches RedirectOutcome::Moved(m) && m@ == response_url@
            } else {
                r is Stayed
            },
        },
{
    match location {
        HeaderValue::Text(loc) => RedirectOutcome::Location(resolve_location(page, loc.as_str())),
        _ => {
            let a = response_url.to_owned();
            let b = page.to_owned();
            if a != b {
                RedirectOutcome::Moved(a)
            } else {
                RedirectOutcome::Stayed
            }
        },
    }
}

/// `s` with its ASCII letters lowered.
pub open spec fn lower_chars(s: Seq<char>) -> Seq<char> {
    s.map_values(|c: char| crate::text::lower_char(c))
}

fn lowered_chars(s: &str) -> (r: Vec<char>)
    ensures
        r@ == lower_chars(s@),
{
    let chars = crate::text::chars_of(s);
    let mut out: Vec<char> = Vec::new();
    let mut i: usize = 0;
    while i < chars.len()
        invariant
            i <= chars.len(),
            chars@ == s@,
            out@ =~= lower_chars(chars@.subrange(0, i as int)),
        decreases chars.len() - i,
    {
        let c = chars[i];
        let l = if 'A' <= c && c <= 'Z' { ((c as u32 + 32) as u8) as char } else { c };
        out.push(l);
        i += 1;
        assert(chars@.subrange(0, i as int) =~= chars@.subrange(0, i - 1).push(c));
    }
    assert(chars@.subrange(0, i as int) =~= chars@);
    out
}

/// A link on a confirmation page that starts the download: its text, ASCII case
/// ignored, holds `start download`, or its `href` holds `/d/`.
pub open spec fn is_start_link(l: InfoView) -> bool {
    &&& l.0 is Some
    &&& (contains_seq(lower_chars(joined(l.2, " "@)), "start download"@) || contains_seq(l.0->0, "/d/"@))
}

/// The `href` of the first link that starts the download.
pub open spec fn first_start_link(links: Seq<InfoView>, i: int) -> Option<Seq<char>>
    decreases links.len() - i,
{
    if i < 0 || i >= links.len() {
        None
    } else if is_start_link(links[i]) {
        links[i].0
    } else {
        first_start_link(links, i + 1)
    }
}

/// Where a start link found on `page` leads: itself when it starts with `http`,
/// else resolved against the page's URL, or itself when that fails.
pub open spec fn confirmation_target(page: Seq<char>, link: Seq<char>) -> Seq<char> {
    match resolved_location(page, link) {
        Some(u) => u,
        None => link,
    }
}

/// The links of a confirmation page.
pub open spec fn confirmation_anchors(html: Seq<char>) -> Option<Seq<InfoView>> {
    selected_elements(html, "a[href]"@, "href"@, "href"@)
}

/// The first start link among `links`.
pub fn find_start_link(links: &Vec<ElementInfo>) -> (r: Option<String>)
    ensures
        r.deep_view() == first_start_link(infos_view(links@), 0),
{
    let ghost v = infos_view(links@);
    let word = crate::text::chars_of("start download");
    let mut i: usize = 0;
    while i < links.len()
        invariant
            i <= links.len(),
            v == infos_view(links@),
            word@ == "start download"@,
            first_start_link(v, 0) == first_start_link(v, i as int),
        decreases links.len() - i,
    {
        assert(v[i as int] == links@[i as int]@);
        match &links[i].first {
            Some(href) => {
                let text = join_with_spaces(&links[i].texts);
                let lowered = lowered_chars(text.as_str());
                if crate::text::contains_chars(&lowered, &word) || str_contains(href.as_str(), "/d/") {
                    return Some(href.clone());
                }
            },
            None => {},
        }
        i += 1;
    }
    None
}

/// The link a confirmation page offers to start the download, resolved against
/// `page`; `None` inside when there is none, `None` outside when the page could
/// not be searched for links.
pub fn confirmation_link(page: &str, html: &str) -> (r: Option<Option<String>>)
    ensures
        match confirmation_anchors(html@) {
            Some(l) => r matches Some(found) && found.deep_view() == (match first_start_link(l, 0) {
                Some(link) => Some(confirmation_target(page@, link)),
                None => None,
            }),
            None => r is None,
        },
{
    match select_elements(html, "a[href]", "href", "href") {
        Some(links) => match find_start_link(&links) {
            Some(link) => {
                let target = match resolve_location(page, link.as_str()) {
                    Some(u) => u,
                    None => link,
                };
                Some(Some(target))
            },
            None => Some(None),
        },
        None => None,
    }
}

/// Takes a start link found for `page` unless it is `page` itself or was seen:
/// `true` when it was added to `links`.
pub fn accept_start_link(links: &mut Vec<String>, seen: &mut LinkSet, page: &str, link: String) -> (r: bool)
    ensures
        r == (link@ != page@ && !old(seen)@.contains(link@)),
        final(seen)@ == (if link@ != page@ { old(seen)@.insert(link@) } else { old(seen)@ }),
        final(links).deep_view() == (if r { old(links).deep_view().push(link@) } else { old(links).deep_view() }),
{
    let p = page.to_owned();
    if link != p {
        add_new_link(links, seen, link)
    } else {
        false
    }
}

/// What happened to one submission of a host page's download form.
pub enum FormEvent {
    /// The request could not be sent.
    SendFailed,
    /// An answer came; what its headers and URL say.
    Answered(RedirectOutcome),
    /// The answer had to be read: the start link found on it, resolved, if any.
    ConfirmationRead(Option<String>),
}

/// What to do next for a host page.
pub enum FormAction {
    /// Wait, then submit the form again as attempt `next`.
    Retry { next: u32 },
    /// Read the answer of the current attempt for a start link.
    ReadBody,
    /// Stop: `resolved` when a final link was found; `added` when it was new and
    /// was appended to the links.
    Finish { resolved: bool, added: bool },
}

/// The next action for a host page, after `event` happened to attempt `attempt`
/// of submitting its form. A link that is found is appended to `links` when
/// `seen` does not hold it yet.
pub fn form_step(attempt: u32, event: FormEvent, page: &str, links: &mut Vec<String>, seen: &mut LinkSet) -> (r: FormAction)
    requires
        1 <= attempt <= FORM_SUBMIT_ATTEMPTS,
        !(event matches FormEvent::Answered(RedirectOutcome::Location(None))),
    ensures
        ({
            let retry = if attempt < FORM_SUBMIT_ATTEMPTS {
                r matches FormAction::Retry { next } && next == attempt + 1
            } else {
                r matches FormAction::Finish { resolved, added } && !resolved && !added
            };
            let keep = final(links)@ == old(links)@ && final(seen)@ == old(seen)@;
            match event {
                FormEvent::SendFailed => retry && keep,
                FormEvent::Answered(RedirectOutcome::Stayed) => r is ReadBody && keep,
                FormEvent::Answered(RedirectOutcome::Location(Some(u))) | FormEvent::Answered(
                    RedirectOutcome::Moved(u),
                ) => r matches FormAction::Finish { resolved, added } && resolved
                    && added == !old(seen)@.contains(u@)
                    && final(seen)@ == old(seen)@.insert(u@)
                    && final(links).deep_view() == (if added { old(links).deep_view().push(u@) } else { old(links).deep_view() }),
                FormEvent::Answered(RedirectOutcome::Location(None)) => true,
                FormEvent::ConfirmationRead(None) => retry && keep,
                FormEvent::ConfirmationRead(Some(l)) => if l@ != page@ && !old(seen)@.contains(l@) {
                    r matches FormAction::Finish { resolved, added } && resolved && added
                        && final(seen)@ == old(seen)@.insert(l@)
                        && final(links).deep_view() == old(links).deep_view().push(l@)
                } else {
                    retry && final(links).deep_view() == old(links).deep_view()
                        && final(seen)@ == (if l@ != page@ { old(seen)@.insert(l@) } else { old(seen)@ })
                },
            }
        }),
{
    let retry = if attempt < FORM_SUBMIT_ATTEMPTS {
        FormAction::Retry { next: attempt + 1 }
    } else {
        FormAction::Finish { resolved: false, added: false }
    };
    match event {
        FormEvent::SendFailed => retry,
        FormEvent::Answered(RedirectOutcome::Stayed) => FormAction::ReadBody,
        FormEvent::Answered(RedirectOutcome::Location(Some(u))) => {
            let added = add_new_link(links, seen, u);
            FormAction::Finish { resolved: true, added }
        },
        FormEvent::Answered(RedirectOutcome::Location(None)) => retry,
        FormEvent::Answered(RedirectOutcome::Moved(u)) => {
            let added = add_new_link(links, seen, u);
            FormAction::Finish { resolved: true, added }
        },
        FormEvent::ConfirmationRead(None) => retry,
        FormEvent::ConfirmationRead(Some(l)) => {
            if accept_start_link(links, seen, page, l) {
                FormAction::Finish { resolved: true, added: true }
            } else {
                retry
            }
        },
    }
}

/// The characters kept in a file name: those that `char::is_alphanumeric` accepts.
pub uninterp spec fn is_alphanumeric_char(c: char) -> bool;

/// The lower-case form of a string as `str::to_lowercase` gives it.
pub uninterp spec fn lowercase_of(s: Seq<char>) -> Seq<char>;

/// Calls `char::is_alphanumeric`. The contract only names the result.
#[verifier::external_body]
fn char_is_alphanumeric(c: char) -> (r: bool)
    ensures
        r == is_alphanumeric_char(c),
{
    c.is_alphanumeric()
}

/// Calls `str::to_lowercase`. The contract only names the result.
#[verifier::external_body]
fn to_lowercase(s: &str) -> (r: String)
    ensures
        r@ == lowercase_of(s@),
{
    s.to_lowercase()
}

/// A title made fit for a file name: every character that is not alphanumeric
/// becomes `_`, then the whole is lowered.
pub open spec fn safe_name_of(name: Seq<char>) -> Seq<char> {
    lowercase_of(name.map_values(|c: char| if is_alphanumeric_char(c) { c } else { '_' }))
}

/// The file name a title's links are saved under (without its extension).
pub fn safe_file_name(name: &str) -> (r: String)
    ensures
        r@ == safe_name_of(name@),
{
    let chars = crate::text::chars_of(name);
    let mut replaced = String::new();
    let mut i: usize = 0;
    while i < chars.len()
        invariant
            i <= chars.len(),
            chars@ == name@,
            replaced@ =~= chars@.subrange(0, i as int).map_values(
                |c: char| if is_alphanumeric_char(c) { c } else { '_' },
            ),
        decreases chars.len() - i,
    {
        let c = chars[i];
        let k = if char_is_alphanumeric(c) { c } else { '_' };
        crate::text::push_char(&mut replaced, k);
        i += 1;
        assert(chars@.subrange(0, i as int) =~= chars@.subrange(0, i - 1).push(c));
    }
    assert(chars@.subrange(0, i as int) =~= chars@);
    to_lowercase(replaced.as_str())
}

/// The file the links found for a title are saved to.
pub open spec fn links_file_of(name: Seq<char>) -> Seq<char> {
    "downloads/"@ + safe_name_of(name) + ".txt"@
}

/// The file the links found for a title are saved to: `downloads/<safe name>.txt`.
pub fn links_file_path(name: &str) -> (r: String)
    ensures
        r@ == links_file_of(name@),
{
    let mut out = String::new();
    push_str(&mut out, "downloads/");
    let safe = safe_file_name(name);
    push_str(&mut out, safe.as_str());
    push_str(&mut out, ".txt");
    out
}

/// The links that download pages are added to: in plain mode they start with
/// the direct host links of the post page; in episode mode with nothing, and the
/// links seen so far are forgotten.
pub fn start_final_links(episode_mode: bool, direct: Vec<String>, seen: &mut LinkSet) -> (r: Vec<String>)
    ensures
        !episode_mode ==> r.deep_view() == direct.deep_view() && final(seen)@ == old(seen)@,
        episode_mode ==> r@.len() == 0 && final(seen)@ == Set::<Seq<char>>::empty(),
{
    if !episode_mode {
        direct
    } else {
        seen.clear();
        Vec::new()
    }
}

/// One line per link.
pub open spec fn lines_of(links: Seq<Seq<char>>) -> Seq<char>
    decreases links.len(),
{
    if links.len() == 0 {
        Seq::empty()
    } else {
        lines_of(links.drop_last()) + links.last() + "\n"@
    }
}

/// The text of the file the found links are saved to: one link per line.
pub fn links_file_text(links: &Vec<String>) -> (r: String)
    ensures
        r@ == lines_of(links.deep_view()),
{
    let mut out = String::new();
    let mut i: usize = 0;
    while i < links.len()
        invariant
            i <= links.len(),
            out@ == lines_of(links.deep_view().subrange(0, i as int)),
        decreases links.len() - i,
    {
        push_str(&mut out, links[i].as_str());
        push_str(&mut out, "\n");
        i += 1;
        assert(links.deep_view().subrange(0, i as int).drop_last() =~= links.deep_view().subrange(0, i - 1));
    }
    assert(links.deep_view().subrange(0, i as int) =~= links.deep_view());
    out
}

/// The menu entry of the search hit at position `i`: `<i + 1>. <name>`.
pub open spec fn choice_label(i: nat, name: Seq<char>) -> Seq<char> {
    crate::text::decimal(i + 1) + ". "@ + name
}

/// The menu entries of the search hits, numbered from 1.
pub fn result_choices(results: &Vec<SearchResult>) -> (r: Vec<String>)
    requires
        results.len() < u64::MAX,
    ensures
        r@.len() == results@.len(),
        forall|i: int| 0 <= i < r@.len() ==> #[trigger] r@[i]@ == choice_label(i as nat, results@[i].name@),
{
    let mut out: Vec<String> = Vec::new();
    let mut i: usize = 0;
    while i < results.len()
        invariant
            i <= results.len() < u64::MAX,
            out@.len() == i,
            forall|k: int| 0 <= k < i ==> #[trigger] out@[k]@ == choice_label(k as nat, results@[k].name@),
        decreases results.len() - i,
    {
        let mut label = String::new();
        crate::text::push_decimal(&mut label, i as u64 + 1);
        push_str(&mut label, ". ");
        push_str(&mut label, results[i].name.as_str());
        out.push(label);
        i += 1;
    }
    out
}

} // verus!
