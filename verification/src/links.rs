//! Link extraction: the absolute URLs that the anchors of a page point to.

use crate::text::{lemma_texts_push, texts};
use crate::web::{
    html_select_attr, join, opt_texts, select_attr, url_join, url_without_fragment,
    without_fragment,
};
use vstd::prelude::*;

verus! {

/// The absolute, fragment-free URL that `href` denotes on the page at `base`;
/// `None` where it cannot be resolved.
pub open spec fn resolved_link(base: Seq<char>, href: Seq<char>) -> Option<Seq<char>> {
    match url_join(base, href) {
        None => None,
        Some(absolute) => url_without_fragment(absolute),
    }
}

/// The resolvable ones among `hrefs`, each resolved against `base`, in order.
/// Values that are absent or do not resolve are skipped; repeats are kept.
pub open spec fn resolved_links(hrefs: Seq<Option<Seq<char>>>, base: Seq<char>) -> Seq<Seq<char>>
    decreases hrefs.len(),
{
    if hrefs.len() == 0 {
        Seq::empty()
    } else {
        let init = resolved_links(hrefs.drop_last(), base);
        match hrefs.last() {
            None => init,
            Some(href) => match resolved_link(base, href) {
                None => init,
                Some(link) => init.push(link),
            },
        }
    }
}

/// The links of the page `html` located at `base`: the `href` of every anchor
/// that has one, resolved against `base`, in document order.
pub open spec fn page_links(html: Seq<char>, base: Seq<char>) -> Seq<Seq<char>> {
    match html_select_attr(html, "a[href]"@, "href"@) {
        None => Seq::empty(),
        Some(hrefs) => resolved_links(hrefs, base),
    }
}

/// Resolves one `href` against `base` and strips the fragment of the result.
pub fn resolve_link(base: &str, href: &str) -> (r: Option<String>)
    ensures
        match r {
            Some(link) => resolved_link(base@, href@) == Some(link@),
            None => resolved_link(base@, href@) is None,
        },
{
    match join(base, href) {
        Ok(absolute) => match without_fragment(absolute.as_str()) {
            Ok(link) => Some(link),
            Err(_) => None,
        },
        Err(_) => None,
    }
}

/// Resolves every present value of `hrefs` against `base`, skipping the ones
/// that do not resolve.
pub fn resolve_all(hrefs: &Vec<Option<String>>, base: &str) -> (r: Vec<String>)
    ensures
        texts(r@) == resolved_links(opt_texts(hrefs@), base@),
{
    let ghost all = opt_texts(hrefs@);
    let mut found: Vec<String> = Vec::new();
    let mut i: usize = 0;
    assert(texts(found@) =~= Seq::empty());
    assert(all.take(0) =~= Seq::empty());
    while i < hrefs.len()
        invariant
            i <= hrefs.len(),
            all == opt_texts(hrefs@),
            texts(found@) == resolved_links(all.take(i as int), base@),
        decreases hrefs.len() - i,
    {
        assert(all.take(i + 1).drop_last() =~= all.take(i as int));
        assert(all.take(i + 1).last() == all[i as int]);
        match &hrefs[i] {
            Some(href) => {
                match resolve_link(base, href.as_str()) {
                    Some(link) => {
                        proof {
                            lemma_texts_push(found@, link);
                        }
                        found.push(link);
                    },
                    None => {},
                }
            },
            None => {},
        }
        i += 1;
    }
    assert(all.take(i as int) =~= all);
    found
}

/// Extracts the outbound links of a page.  Markup is read permissively; every
/// anchor with an `href` that resolves against `base` contributes one absolute
/// URL without fragment.  Document order is kept and repeats are not removed.
pub fn extract_links(html: &str, base: &str) -> (r: Vec<String>)
    ensures
        texts(r@) == page_links(html@, base@),
{
    match select_attr(html, "a[href]", "href") {
        Some(hrefs) => resolve_all(&hrefs, base),
        None => {
            let none: Vec<String> = Vec::new();
            assert(texts(none@) =~= Seq::empty());
            none
        },
    }
}

} // verus!
