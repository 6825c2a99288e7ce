//! Configured search pages: the request url built from a query, and the
//! search results extracted from the fetched document.

use vstd::prelude::*;

use crate::codec::url_encode;
use crate::codec::url_encoded;
use crate::dom::attr_matches;
use crate::dom::select_attr;
use crate::dom::select_text;
use crate::dom::selector_is_valid;
use crate::dom::text_matches;
use crate::dom::valid_selector;
use crate::error::ErrorKind;
use crate::error::ScrapeError;
use crate::text::chars_of;
use crate::text::find_occ;
use crate::text::replace_all;
use crate::text::replace_all_str;
use crate::text::spec_u64_string;
use crate::text::string_of_range;
use crate::text::u64_to_string;

verus! {

/// One search hit of a configured search page.
#[derive(Debug)]
pub struct SearchResult {
    pub title: String,
    pub url: String,
    pub cover: String,
    pub type_: Option<String>,
    pub status: Option<String>,
}

/// The mathematical value of a search hit.
pub struct SearchResultV {
    pub title: Seq<char>,
    pub url: Seq<char>,
    pub cover: Seq<char>,
    pub type_: Option<Seq<char>>,
    pub status: Option<Seq<char>>,
}

impl View for SearchResult {
    type V = SearchResultV;

    open spec fn view(&self) -> SearchResultV {
        SearchResultV {
            title: self.title@,
            url: self.url@,
            cover: self.cover@,
            type_: match &self.type_ {
                Option::Some(s) => Option::Some(s@),
                Option::None => Option::None,
            },
            status: match &self.status {
                Option::Some(s) => Option::Some(s@),
                Option::None => Option::None,
            },
        }
    }
}

/// A search-page configuration as it stands in a configuration file: the
/// request url templates, the selectors, and the paging offset.
pub struct SearchServiceDeserialized {
    pub headers: Option<String>,
    pub url_empty: Option<String>,
    pub url: String,
    pub selector: String,
    pub label_selector: Option<String>,
    pub type_: Option<String>,
    pub status: Option<String>,
    pub cover: String,
    pub offset: Option<u32>,
}

/// The mathematical value of a compiled search page.
pub struct SearchDataV {
    pub headers: Seq<(Seq<char>, Seq<char>)>,
    pub url_empty: Option<Seq<char>>,
    pub url: Seq<char>,
    pub selector: Seq<char>,
    pub cover: Seq<char>,
    pub label_selector: Option<Seq<char>>,
    pub type_: Option<Seq<char>>,
    pub status: Option<Seq<char>>,
    pub offset: Option<u32>,
}

/// A compiled search page: its selectors accepted by the selector engine, its
/// url templates and request headers ready for use.
#[derive(Debug)]
pub struct SearchServiceScrapeData {
    headers: Vec<(String, String)>,
    url_empty: Option<String>,
    url: String,
    selector: String,
    cover: String,
    label_selector: Option<String>,
    type_: Option<String>,
    status: Option<String>,
    offset: Option<u32>,
}

pub open spec fn opt_view(o: Option<String>) -> Option<Seq<char>> {
    match o {
        Option::Some(s) => Option::Some(s@),
        Option::None => Option::None,
    }
}

impl View for SearchServiceScrapeData {
    type V = SearchDataV;

    closed spec fn view(&self) -> SearchDataV {
        SearchDataV {
            headers: self.headers.deep_view(),
            url_empty: opt_view(self.url_empty),
            url: self.url@,
            selector: self.selector@,
            cover: self.cover@,
            label_selector: opt_view(self.label_selector),
            type_: opt_view(self.type_),
            status: opt_view(self.status),
            offset: self.offset,
        }
    }
}

/// Whether an optional selector is accepted by the selector engine.
pub open spec fn opt_selector_ok(o: Option<Seq<char>>) -> bool {
    match o {
        Option::Some(s) => valid_selector(s),
        Option::None => true,
    }
}

impl SearchServiceScrapeData {
    /// Every selector of a compiled search page is accepted by the selector
    /// engine.
    #[verifier::type_invariant]
    pub closed spec fn wf(self) -> bool {
        &&& valid_selector(self.selector@)
        &&& valid_selector(self.cover@)
        &&& opt_selector_ok(opt_view(self.label_selector))
        &&& opt_selector_ok(opt_view(self.type_))
        &&& opt_selector_ok(opt_view(self.status))
    }

    /// The request headers of this search page.
    pub fn headers(&self) -> (r: &Vec<(String, String)>)
        ensures
            r.deep_view() == self@.headers,
    {
        &self.headers
    }
}

impl SearchServiceDeserialized {
    /// Compiles the configuration: every selector must be accepted by the
    /// selector engine; the request headers are handed in decoded.
    pub fn convert(self, headers: Vec<(String, String)>) -> (r: Result<
        SearchServiceScrapeData,
        ScrapeError,
    >)
        ensures
            r matches Ok(data) ==> data@ == (SearchDataV {
                headers: headers.deep_view(),
                url_empty: opt_view(self.url_empty),
                url: self.url@,
                selector: self.selector@,
                cover: self.cover@,
                label_selector: opt_view(self.label_selector),
                type_: opt_view(self.type_),
                status: opt_view(self.status),
                offset: self.offset,
            }),
            r is Err <==> !(valid_selector(self.selector@) && valid_selector(self.cover@)
                && opt_selector_ok(opt_view(self.label_selector)) && opt_selector_ok(
                opt_view(self.type_),
            ) && opt_selector_ok(opt_view(self.status))),
            r matches Err(e) ==> e.kind == ErrorKind::Grammar,
    {
        if !selector_is_valid(self.selector.as_str()) {
            return Err(ScrapeError::grammar_error("invalid selector"));
        }
        if !selector_is_valid(self.cover.as_str()) {
            return Err(ScrapeError::grammar_error("invalid selector"));
        }
        if let Some(s) = &self.label_selector {
            if !selector_is_valid(s.as_str()) {
                return Err(ScrapeError::grammar_error("invalid selector"));
            }
        }
        if let Some(s) = &self.type_ {
            if !selector_is_valid(s.as_str()) {
                return Err(ScrapeError::grammar_error("invalid selector"));
            }
        }
        if let Some(s) = &self.status {
            if !selector_is_valid(s.as_str()) {
                return Err(ScrapeError::grammar_error("invalid selector"));
            }
        }
        Ok(
            SearchServiceScrapeData {
                headers,
                url_empty: self.url_empty,
                url: self.url,
                selector: self.selector,
                cover: self.cover,
                label_selector: self.label_selector,
                type_: self.type_,
                status: self.status,
                offset: self.offset,
            },
        )
    }
}

/// The request url for a query: the empty-query template when the query is
/// empty and one is configured, else the main template, with `{query}`
/// replaced by the percent-encoded query, `{page}` by the page number, and
/// `{offset}` by the page number less one times the configured offset.
pub open spec fn spec_build_url(data: SearchDataV, query: Seq<char>, page: u32) -> Seq<char> {
    let base = if query.len() == 0 && data.url_empty is Some {
        data.url_empty->0
    } else {
        data.url
    };
    let offset = match data.offset {
        Option::Some(o) => o as int,
        Option::None => 0,
    };
    replace_all(
        replace_all(
            replace_all(base, seq!['{', 'q', 'u', 'e', 'r', 'y', '}'], url_encoded(query)),
            seq!['{', 'p', 'a', 'g', 'e', '}'],
            spec_u64_string(page as int),
        ),
        seq!['{', 'o', 'f', 'f', 's', 'e', 't', '}'],
        spec_u64_string((page - 1) * offset),
    )
}

impl SearchServiceScrapeData {
    /// Builds the request url for a query and a page (pages are counted from
    /// one).
    pub fn build_search_url(&self, query: &str, page: u32) -> (r: String)
        requires
            page >= 1,
        ensures
            r@ == spec_build_url(self@, query@, page),
    {
        proof {
            reveal_strlit("{query}");
            reveal_strlit("{page}");
            reveal_strlit("{offset}");
            assert("{query}"@ =~= seq!['{', 'q', 'u', 'e', 'r', 'y', '}']);
            assert("{page}"@ =~= seq!['{', 'p', 'a', 'g', 'e', '}']);
            assert("{offset}"@ =~= seq!['{', 'o', 'f', 'f', 's', 'e', 't', '}']);
        }
        let base: &String;
        if query.unicode_len() == 0 {
            match &self.url_empty {
                Some(u) => {
                    base = u;
                },
                None => {
                    base = &self.url;
                },
            }
        } else {
            base = &self.url;
        }
        let offset: u32 = match &self.offset {
            Some(o) => *o,
            None => 0,
        };
        let encoded = url_encode(query);
        let page_text = u64_to_string(page as u64);
        proof {
            assert((page - 1) as u64 as int * (offset as u64) as int == (page - 1) * (offset as int))
                by (nonlinear_arith)
                requires
                    page >= 1,
            ;
        }
        proof {
            assert(((page - 1) as u64) as int * ((offset as u64) as int) <= 0xFFFF_FFFF
                * 0xFFFF_FFFF) by (nonlinear_arith)
                requires
                    1 <= page <= 0xFFFF_FFFFu64,
                    offset <= 0xFFFF_FFFFu64,
            ;
        }
        let offset_val: u64 = (page as u64 - 1) * (offset as u64);
        let offset_text = u64_to_string(offset_val);
        let step1 = replace_all_str(base.as_str(), "{query}", encoded.as_str());
        let step2 = replace_all_str(step1.as_str(), "{page}", page_text.as_str());
        replace_all_str(step2.as_str(), "{offset}", offset_text.as_str())
    }
}

/// An absent attribute read as the empty string.
pub open spec fn unwrap_or_empty(o: Option<Seq<char>>) -> Seq<char> {
    match o {
        Option::Some(s) => s,
        Option::None => Seq::empty(),
    }
}

/// The cover url of a hit: its `src` attribute, the `data-src` attribute when
/// `src` is absent, the empty string when both are.
pub open spec fn cover_pick(src: Option<Seq<char>>, data_src: Option<Seq<char>>) -> Seq<char> {
    match src {
        Option::Some(s) => s,
        Option::None => unwrap_or_empty(data_src),
    }
}

/// A proxied cover url unwrapped: everything before an embedded `/https://`
/// is dropped and the scheme restored; a url without one is kept whole.
pub open spec fn cover_fix(s: Seq<char>) -> Seq<char> {
    match find_occ(s, 0, seq!['/', 'h', 't', 't', 'p', 's', ':', '/', '/']) {
        Option::Some(i) => seq!['h', 't', 't', 'p', 's', ':', '/', '/'] + s.skip(i + 9),
        Option::None => s,
    }
}

/// Restores a proxied cover url.
#[verifier::loop_isolation(false)]
fn fix_cover(s: &str) -> (r: String)
    ensures
        r@ == cover_fix(s@),
{
    let v = chars_of(s);
    let n = v.len();
    let pat: Vec<char> = vec!['/', 'h', 't', 't', 'p', 's', ':', '/', '/'];
    proof {
        assert(pat@ =~= seq!['/', 'h', 't', 't', 'p', 's', ':', '/', '/']);
    }
    let mut i: usize = 0;
    let mut found = false;
    while n - i >= 9 && !found
        invariant
            0 <= i <= n,
            forall|j: int| 0 <= j < i ==> !crate::text::occ_at(v@, j, pat@),
            found ==> crate::text::occ_at(v@, i as int, pat@),
        decreases n - i + (if found {
            0int
        } else {
            1int
        }),
    {
        if crate::text::exec_occ_at(&v, i, &pat) {
            found = true;
        } else {
            i = i + 1;
        }
    }
    proof {
        crate::text::lemma_find_occ_from(v@, 0, i as int, pat@);
    }
    if found {
        let scheme = String::from_str("https://");
        proof {
            reveal_strlit("https://");
            assert(scheme@ =~= seq!['h', 't', 't', 'p', 's', ':', '/', '/']);
        }
        let suffix = string_of_range(&v, i + 9, n);
        proof {
            assert(v@.subrange(i + 9 as int, n as int) =~= v@.skip(i + 9));
        }
        scheme.concat(suffix.as_str())
    } else {
        proof {
            assert(find_occ(v@, i as int, pat@) is None);
        }
        s.to_owned()
    }
}

/// What extracting the hits of a search page from a document yields: one hit
/// per url that the main selector matches (its `href`), titled by the label
/// selector's text (or the main selector's own), covered by the cover
/// selector's `src` or `data-src`, with the optional type and status texts.
/// Fails when any present list is shorter than the url list.
pub open spec fn search_outcome(data: SearchDataV, doc: Seq<char>) -> Result<Seq<SearchResultV>, ()> {
    let urls = attr_matches(doc, data.selector, "href"@).map_values(
        |o: Option<Seq<char>>| unwrap_or_empty(o),
    );
    let src = attr_matches(doc, data.cover, "src"@);
    let data_src = attr_matches(doc, data.cover, "data-src"@);
    let covers = Seq::new(src.len(), |i: int| cover_fix(cover_pick(src[i], data_src[i])));
    let labels = match data.label_selector {
        Option::Some(ls) => text_matches(doc, ls),
        Option::None => text_matches(doc, data.selector),
    };
    let status = match data.status {
        Option::Some(s) => Option::Some(text_matches(doc, s)),
        Option::None => Option::None,
    };
    let types = match data.type_ {
        Option::Some(s) => Option::Some(text_matches(doc, s)),
        Option::None => Option::None,
    };
    if labels.len() < urls.len() || covers.len() < urls.len() || (status matches Some(st)
        && st.len() < urls.len()) || (types matches Some(ty) && ty.len() < urls.len()) {
        Err(())
    } else {
        Ok(
            Seq::new(
                urls.len(),
                |i: int|
                    SearchResultV {
                        title: labels[i],
                        url: urls[i],
                        cover: covers[i],
                        type_: match types {
                            Option::Some(ty) => Option::Some(ty[i]),
                            Option::None => Option::None,
                        },
                        status: match status {
                            Option::Some(st) => Option::Some(st[i]),
                            Option::None => Option::None,
                        },
                    },
            ),
        )
    }
}

impl SearchServiceScrapeData {
    /// Extracts the search hits of a fetched document: one per matched url,
    /// with title, cover (proxied covers unwrapped) and the optional type and
    /// status. A document whose label, cover, type or status lists fall short
    /// of its url list is an extraction error.
    #[verifier::loop_isolation(false)]
    #[verifier::rlimit(100)]
    pub fn extract_search_results(&self, html: &str) -> (r: Result<Vec<SearchResult>, ScrapeError>)
        ensures
            r matches Ok(hits) ==> search_outcome(self@, html@) matches Ok(expected)
                && hits@.len() == expected.len() && (forall|i: int|
                0 <= i < expected.len() ==> #[trigger] hits@[i]@ == expected[i]),
            r matches Err(e) ==> search_outcome(self@, html@) is Err && e.kind
                == ErrorKind::Extraction,
    {
        proof {
            use_type_invariant(self);
        }
        let urls_raw = select_attr(html, self.selector.as_str(), "href");
        let src_raw = select_attr(html, self.cover.as_str(), "src");
        let data_src_raw = select_attr(html, self.cover.as_str(), "data-src");
        let labels = match &self.label_selector {
            Some(ls) => select_text(html, ls.as_str()),
            None => select_text(html, self.selector.as_str()),
        };
        let status = match &self.status {
            Some(s) => Some(select_text(html, s.as_str())),
            None => None,
        };
        let types = match &self.type_ {
            Some(s) => Some(select_text(html, s.as_str())),
            None => None,
        };
        let n = urls_raw.len();
        if labels.len() < n || src_raw.len() < n {
            return Err(ScrapeError::node_not_found());
        }
        if let Some(st) = &status {
            if st.len() < n {
                return Err(ScrapeError::node_not_found());
            }
        }
        if let Some(ty) = &types {
            if ty.len() < n {
                return Err(ScrapeError::node_not_found());
            }
        }
        let ghost expected = search_outcome(self@, html@)->Ok_0;
        let mut hits: Vec<SearchResult> = Vec::new();
        let mut i: usize = 0;
        while i < n
            invariant
                0 <= i <= n,
                hits@.len() == i,
                forall|j: int| 0 <= j < i ==> #[trigger] hits@[j]@ == expected[j],
            decreases n - i,
        {
            proof {
                assert(urls_raw.deep_view()[i as int] == urls_raw@[i as int].deep_view());
                assert(src_raw.deep_view()[i as int] == src_raw@[i as int].deep_view());
                assert(data_src_raw.deep_view()[i as int] == data_src_raw@[i as int].deep_view());
                assert(labels.deep_view()[i as int] == labels@[i as int]@);
            }
            let url = match &urls_raw[i] {
                Some(u) => u.clone(),
                None => String::new(),
            };
            let cover_raw: &String;
            let empty = String::new();
            match &src_raw[i] {
                Some(s) => {
                    cover_raw = s;
                },
                None => {
                    match &data_src_raw[i] {
                        Some(d) => {
                            cover_raw = d;
                        },
                        None => {
                            cover_raw = &empty;
                        },
                    }
                },
            }
            let cover = fix_cover(cover_raw.as_str());
            let title = labels[i].clone();
            let type_ = match &types {
                Some(ty) => {
                    proof {
                        assert(ty.deep_view()[i as int] == ty@[i as int]@);
                    }
                    Some(ty[i].clone())
                },
                None => None,
            };
            let status_val = match &status {
                Some(st) => {
                    proof {
                        assert(st.deep_view()[i as int] == st@[i as int]@);
                    }
                    Some(st[i].clone())
                },
                None => None,
            };
            let hit = SearchResult { title, url, cover, type_, status: status_val };
            proof {
                assert(hit@ == expected[i as int]);
            }
            hits.push(hit);
            i = i + 1;
        }
        Ok(hits)
    }
}

} // verus!