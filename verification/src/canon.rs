//! URL canonicalisation: the identity under which a page is tracked.

use crate::text::{contains_text, texts};
use crate::web::{
    pair_texts, query_pairs_of, url_parse, url_query_pairs, url_with_query_pairs,
    url_without_fragment, url_without_query, with_query_pairs, without_fragment, without_query,
};
use vstd::prelude::*;

verus! {

/// Why a crawl could not be set up or a URL could not be used.
#[derive(Debug, Clone, Copy, PartialEq, Eq, Structural)]
pub enum CrawlError {
    /// The text is not a structurally valid absolute URL.
    InvalidUrl,
    /// The seed URL has no domain name to confine the crawl to.
    NoDomain,
}

impl CrawlError {
    /// A short human-readable description.
    pub fn message(&self) -> (r: String)
        ensures
            r@ == match *self {
                CrawlError::InvalidUrl => "invalid URL"@,
                CrawlError::NoDomain => "seed URL has no domain"@,
            },
    {
        match self {
            CrawlError::InvalidUrl => "invalid URL".to_owned(),
            CrawlError::NoDomain => "seed URL has no domain".to_owned(),
        }
    }
}

/// The pairs of `pairs` whose key is none of `params`, in the order in which they stand.
pub open spec fn kept_pairs(pairs: Seq<(Seq<char>, Seq<char>)>, params: Seq<Seq<char>>) -> Seq<
    (Seq<char>, Seq<char>),
>
    decreases pairs.len(),
{
    if pairs.len() == 0 {
        Seq::empty()
    } else {
        let init = kept_pairs(pairs.drop_last(), params);
        if params.contains(pairs.last().0) {
            init
        } else {
            init.push(pairs.last())
        }
    }
}

/// The canonical form of `url` under the removed parameters `params`: the
/// fragment is dropped, every query pair keyed by one of `params` is dropped,
/// and a query left without pairs is omitted altogether.  `None` where the
/// text is not a URL.
pub open spec fn canonical(url: Seq<char>, params: Seq<Seq<char>>) -> Option<Seq<char>> {
    match url_without_fragment(url) {
        None => None,
        Some(bare) => match url_query_pairs(bare) {
            None => None,
            Some(pairs) => {
                let kept = kept_pairs(pairs, params);
                if kept.len() == 0 {
                    url_without_query(bare)
                } else {
                    url_with_query_pairs(bare, kept)
                }
            },
        },
    }
}

/// Every kept pair was present before and its key is not among `params`.
pub proof fn lemma_kept_pairs_members(
    pairs: Seq<(Seq<char>, Seq<char>)>,
    params: Seq<Seq<char>>,
)
    ensures
        kept_pairs(pairs, params).len() <= pairs.len(),
        forall|i: int|
            0 <= i < kept_pairs(pairs, params).len() ==> pairs.contains(
                #[trigger] kept_pairs(pairs, params)[i],
            ) && !params.contains(kept_pairs(pairs, params)[i].0),
    decreases pairs.len(),
{
    if pairs.len() > 0 {
        let init = pairs.drop_last();
        lemma_kept_pairs_members(init, params);
        let kept = kept_pairs(pairs, params);
        assert forall|i: int| 0 <= i < kept.len() implies pairs.contains(#[trigger] kept[i])
            && !params.contains(kept[i].0) by {
            if i < kept_pairs(init, params).len() {
                let p = kept_pairs(init, params)[i];
                assert(init.contains(p));
                let k = choose|k: int| 0 <= k < init.len() && init[k] == p;
                assert(pairs[k] == p);
            } else {
                assert(kept[i] == pairs.last());
                assert(pairs[pairs.len() - 1] == pairs.last());
            }
        }
    }
}

/// Pairs that survive the filter survive it again: where no key of `pairs` is
/// among `params`, nothing is dropped.
pub proof fn lemma_kept_pairs_fixed(pairs: Seq<(Seq<char>, Seq<char>)>, params: Seq<Seq<char>>)
    requires
        forall|i: int| 0 <= i < pairs.len() ==> !params.contains(#[trigger] pairs[i].0),
    ensures
        kept_pairs(pairs, params) == pairs,
    decreases pairs.len(),
{
    if pairs.len() > 0 {
        let init = pairs.drop_last();
        assert forall|i: int| 0 <= i < init.len() implies !params.contains(
            #[trigger] init[i].0,
        ) by {
            assert(init[i] == pairs[i]);
        }
        lemma_kept_pairs_fixed(init, params);
        assert(!params.contains(pairs[pairs.len() - 1].0));
        assert(init.push(pairs.last()) =~= pairs);
    } else {
        assert(pairs =~= Seq::empty());
    }
}

/// Filtering the query pairs is idempotent: a second pass with the same
/// parameter list drops nothing more.
pub proof fn lemma_kept_pairs_idempotent(
    pairs: Seq<(Seq<char>, Seq<char>)>,
    params: Seq<Seq<char>>,
)
    ensures
        kept_pairs(kept_pairs(pairs, params), params) == kept_pairs(pairs, params),
{
    lemma_kept_pairs_members(pairs, params);
    lemma_kept_pairs_fixed(kept_pairs(pairs, params), params);
}

/// The fragment plays no part in the canonical form: two texts that the parser
/// reads as the same URL once the fragment is dropped canonicalise alike,
/// under every parameter list.
pub proof fn lemma_canonical_ignores_fragment(
    first: Seq<char>,
    second: Seq<char>,
    params: Seq<Seq<char>>,
)
    requires
        url_without_fragment(first) == url_without_fragment(second),
    ensures
        canonical(first, params) == canonical(second, params),
{
}

/// A URL that needs no work is its own canonical form: it carries no
/// fragment, none of its query keys is among `params`, and the parser writes
/// its query back unchanged.
pub proof fn lemma_canonical_fixed_point(url: Seq<char>, params: Seq<Seq<char>>)
    requires
        url_without_fragment(url) == Some(url),
        url_query_pairs(url) is Some,
        forall|i: int|
            0 <= i < url_query_pairs(url).unwrap().len() ==> !params.contains(
                #[trigger] url_query_pairs(url).unwrap()[i].0,
            ),
        url_query_pairs(url).unwrap().len() == 0 ==> url_without_query(url) == Some(url),
        url_query_pairs(url).unwrap().len() > 0 ==> url_with_query_pairs(
            url,
            url_query_pairs(url).unwrap(),
        ) == Some(url),
    ensures
        canonical(url, params) == Some(url),
{
    lemma_kept_pairs_fixed(url_query_pairs(url).unwrap(), params);
}

/// Keeps the pairs whose key is none of `params`, preserving their order.
pub fn retain_pairs(pairs: Vec<(String, String)>, params: &Vec<String>) -> (r: Vec<
    (String, String),
>)
    ensures
        pair_texts(r@) == kept_pairs(pair_texts(pairs@), texts(params@)),
{
    let ghost all = pair_texts(pairs@);
    let mut pairs = pairs;
    let mut kept: Vec<(String, String)> = Vec::new();
    let mut i: usize = 0;
    assert(pair_texts(kept@) =~= Seq::empty());
    assert(all.take(0) =~= Seq::empty());
    while i < pairs.len()
        invariant
            i <= pairs.len(),
            pairs.len() == all.len(),
            forall|k: int| i <= k < pairs.len() ==> (pairs[k].0@, pairs[k].1@) == all[k],
            pair_texts(kept@) == kept_pairs(all.take(i as int), texts(params@)),
        decreases pairs.len() - i,
    {
        let ghost before = pair_texts(kept@);
        assert(all.take(i + 1).drop_last() =~= all.take(i as int));
        assert(all.take(i + 1).last() == all[i as int]);
        let drop = contains_text(params, &pairs[i].0);
        if !drop {
            let mut taken = (String::new(), String::new());
            std::mem::swap(&mut pairs[i], &mut taken);
            assert(pair_texts(kept@.push(taken)) =~= before.push(all[i as int]));
            kept.push(taken);
        }
        i += 1;
    }
    assert(all.take(i as int) =~= all);
    kept
}

/// Canonicalises `url`: drops the fragment and every query parameter named in
/// `params` (exact, case-sensitive match), and omits a query that is left
/// empty.  Fails with `InvalidUrl`, and only with it, where `url` has no
/// canonical form, which includes every text that is not a valid URL.
pub fn canonicalize(url: &str, params: &Vec<String>) -> (r: Result<String, CrawlError>)
    ensures
        match r {
            Ok(c) => canonical(url@, texts(params@)) == Some(c@) && url_parse(url@) is Some,
            Err(e) => canonical(url@, texts(params@)) is None && e == CrawlError::InvalidUrl,
        },
{
    let bare = match without_fragment(url) {
        Ok(b) => b,
        Err(_) => {
            return Err(CrawlError::InvalidUrl);
        },
    };
    let pairs = match query_pairs_of(bare.as_str()) {
        Ok(p) => p,
        Err(_) => {
            return Err(CrawlError::InvalidUrl);
        },
    };
    let kept = retain_pairs(pairs, params);
    assert(kept@.len() == pair_texts(kept@).len());
    let rebuilt = if kept.len() == 0 {
        without_query(bare.as_str())
    } else {
        with_query_pairs(bare.as_str(), &kept)
    };
    match rebuilt {
        Ok(c) => Ok(c),
        Err(_) => Err(CrawlError::InvalidUrl),
    }
}

} // verus!
