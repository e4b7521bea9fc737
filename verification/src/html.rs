//! What the library reads from HTML pages, through the `scraper` crate.
use vstd::prelude::*;
use scraper::{ElementRef, Html, Selector};

verus! {

/// What is read of one element: the values of two of its attributes, and the
/// text nodes below it, in tree order.
pub struct ElementInfo {
    pub first: Option<String>,
    pub second: Option<String>,
    pub texts: Vec<String>,
}

impl View for ElementInfo {
    type V = (Option<Seq<char>>, Option<Seq<char>>, Seq<Seq<char>>);

    open spec fn view(&self) -> Self::V {
        (self.first.deep_view(), self.second.deep_view(), self.texts.deep_view())
    }
}

/// The view of a list of element records.
pub open spec fn infos_view(v: Seq<ElementInfo>) -> Seq<(Option<Seq<char>>, Option<Seq<char>>, Seq<Seq<char>>)> {
    v.map_values(|e: ElementInfo| e@)
}

/// The view of an optional element record.
pub open spec fn opt_info_view(e: Option<ElementInfo>) -> Option<(Option<Seq<char>>, Option<Seq<char>>, Seq<Seq<char>>)> {
    match e {
        Some(i) => Some(i@),
        None => None,
    }
}

/// The view of a list of pairs of optional element records.
pub open spec fn scoped_view(v: Seq<(Option<ElementInfo>, Option<ElementInfo>)>) -> Seq<(Option<(Option<Seq<char>>, Option<Seq<char>>, Seq<Seq<char>>)>, Option<(Option<Seq<char>>, Option<Seq<char>>, Seq<Seq<char>>)>)> {
    v.map_values(|p: (Option<ElementInfo>, Option<ElementInfo>)| (opt_info_view(p.0), opt_info_view(p.1)))
}

/// The elements of the HTML document `html` that match the CSS selector group
/// `selector`, in the order in which the parser inserted them into the tree, each read as its values of the attributes
/// `attr1` and `attr2` and its text nodes; `None` when `selector` is no valid
/// selector group.
pub uninterp spec fn selected_elements(html: Seq<char>, selector: Seq<char>, attr1: Seq<char>, attr2: Seq<char>) -> Option<Seq<(Option<Seq<char>>, Option<Seq<char>>, Seq<Seq<char>>)>>;

/// For each element of `html` that matches `scope`, in the order in which the
/// parser inserted them into the tree: the first element below it, in tree order, that matches `link`, and the first that matches `fallback`,
/// each read as its value of `link_attr`, the value of `inner_attr` on the first
/// element below it that matches `inner`, and its text nodes. The whole is `None`
/// when one of the four selectors is invalid.
pub uninterp spec fn scoped_links(html: Seq<char>, scope: Seq<char>, link: Seq<char>, fallback: Seq<char>, inner: Seq<char>, link_attr: Seq<char>, inner_attr: Seq<char>) -> Option<Seq<(Option<(Option<Seq<char>>, Option<Seq<char>>, Seq<Seq<char>>)>, Option<(Option<Seq<char>>, Option<Seq<char>>, Seq<Seq<char>>)>)>>;

/// Calls `scraper::Selector::parse`, `scraper::Html::parse_document` and
/// `Html::select`, and reads each match with `ElementRef::attr` and
/// `ElementRef::text`. The contract only names the result.
#[verifier::external_body]
pub(crate) fn select_elements(html: &str, selector: &str, attr1: &str, attr2: &str) -> (r: Option<Vec<ElementInfo>>)
    ensures
        match r {
            Some(v) => selected_elements(html@, selector@, attr1@, attr2@) == Some(infos_view(v@)),
            None => selected_elements(html@, selector@, attr1@, attr2@) is None,
        },
{
    let sel = Selector::parse(selector).ok()?;
    Some(Html::parse_document(html).select(&sel).map(|e| ElementInfo {
        first: e.attr(attr1).map(str::to_string),
        second: e.attr(attr2).map(str::to_string),
        texts: e.text().map(str::to_string).collect(),
    }).collect())
}

/// Calls `scraper::Selector::parse` on four selectors, `Html::parse_document`,
/// `Html::select` and `ElementRef::select`, and reads the elements found with
/// `ElementRef::attr` and `ElementRef::text`. The contract only names the result.
#[verifier::external_body]
pub(crate) fn select_scoped_links(html: &str, scope: &str, link: &str, fallback: &str, inner: &str, link_attr: &str, inner_attr: &str) -> (r: Option<Vec<(Option<ElementInfo>, Option<ElementInfo>)>>)
    ensures
        match r {
            Some(v) => scoped_links(html@, scope@, link@, fallback@, inner@, link_attr@, inner_attr@) == Some(scoped_view(v@)),
            None => scoped_links(html@, scope@, link@, fallback@, inner@, link_attr@, inner_attr@) is None,
        },
{
    let p = |x: &str| Selector::parse(x).ok();
    let s = p(scope)?;
    let l = p(link)?;
    let f = p(fallback)?;
    let i = p(inner)?;
    let info = |a: ElementRef| ElementInfo {
        first: a.attr(link_attr).map(str::to_string),
        second: a.select(&i).next().and_then(|e| e.attr(inner_attr)).map(str::to_string),
        texts: a.text().map(str::to_string).collect(),
    };
    Some(Html::parse_document(html).select(&s).map(|c| (c.select(&l).next().map(&info), c.select(&f).next().map(&info))).collect())
}

} // verus!
