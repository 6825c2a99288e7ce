//! From extracted fields to domain records: the chapter listings and page
//! lists that the extraction rules produce, assembled and checked.

use vstd::prelude::*;

use crate::codec::decode_string_array;
use crate::codec::parsed_string_array;
use crate::error::ErrorKind;
use crate::error::ScrapeError;
use crate::field::is_digit_char;
use crate::reconcile::EPISODE_CENTI_MAX;
use crate::reconcile::Info;
use crate::reconcile::InfoV;
use crate::reconcile::number_end;
use crate::reconcile::parse_episode;
use crate::reconcile::spec_parse_episode;
use crate::reconcile::token_centi;
use crate::text::chars_of;
use crate::text::string_from_chars;

verus! {

/// The value of the first pair that carries the key.
pub open spec fn lookup(pairs: Seq<(Seq<char>, Seq<char>)>, key: Seq<char>) -> Option<Seq<char>>
    decreases pairs.len(),
{
    if pairs.len() == 0 {
        Option::None
    } else if pairs[0].0 == key {
        Option::Some(pairs[0].1)
    } else {
        lookup(pairs.drop_first(), key)
    }
}

proof fn lemma_lookup_skip(pairs: Seq<(Seq<char>, Seq<char>)>, j: int, key: Seq<char>)
    requires
        0 <= j <= pairs.len(),
        forall|k: int| 0 <= k < j ==> (#[trigger] pairs[k]).0 != key,
    ensures
        lookup(pairs, key) == lookup(pairs.skip(j), key),
    decreases j,
{
    if j > 0 {
        lemma_lookup_skip(pairs, j - 1, key);
        let tail = pairs.skip(j - 1);
        assert(tail[0] == pairs[j - 1]);
        assert(tail.drop_first() =~= pairs.skip(j));
    } else {
        assert(pairs.skip(0) =~= pairs);
    }
}

/// The value stored under `key`, if any.
pub(crate) fn map_get<'a>(pairs: &'a Vec<(String, String)>, key: &String) -> (r: Option<&'a String>)
    ensures
        match r {
            Option::Some(v) => lookup(pairs.deep_view(), key@) == Option::Some(v@),
            Option::None => lookup(pairs.deep_view(), key@) is None,
        },
{
    let n = pairs.len();
    let mut i: usize = 0;
    while i < n
        invariant
            0 <= i <= n,
            n == pairs@.len(),
            forall|k: int| 0 <= k < i ==> (#[trigger] pairs.deep_view()[k]).0 != key@,
        decreases n - i,
    {
        if pairs[i].0.eq(key) {
            proof {
                assert(pairs.deep_view()[i as int].0 == pairs@[i as int].0@);
                lemma_lookup_skip(pairs.deep_view(), i as int, key@);
                assert(pairs.deep_view().skip(i as int)[0] == pairs.deep_view()[i as int]);
            }
            return Some(&pairs[i].1);
        }
        proof {
            assert(pairs.deep_view()[i as int].0 == pairs@[i as int].0@);
        }
        i = i + 1;
    }
    proof {
        lemma_lookup_skip(pairs.deep_view(), n as int, key@);
        assert(pairs.deep_view().skip(n as int).len() == 0);
    }
    None
}

/// The episode number of a label, in hundredths: zero when no pattern
/// matches or the number is too large to carry.
pub open spec fn episode_of_label(l: Seq<char>) -> u64 {
    match spec_parse_episode(l) {
        Ok(c) => c as u64,
        Err(_) => 0,
    }
}

/// Every dash turned into a dot (episode tokens write fractions with a dash).
pub open spec fn dashes_to_dots(s: Seq<char>) -> Seq<char> {
    s.map_values(
        |c: char|
            if c == '-' {
                '.'
            } else {
                c
            },
    )
}

/// What a bare decimal text is worth, in hundredths: the whole text must be
/// one number token.
pub open spec fn spec_parse_decimal(s: Seq<char>) -> Option<int> {
    if s.len() > 0 && is_digit_char(s[0]) && number_end(s, 0) == s.len() {
        Option::Some(token_centi(s, 0))
    } else {
        Option::None
    }
}

/// The chapter entries of a batch whose labels carry the episode numbers: one
/// entry per url, titled with its label, numbered by the label's parsed
/// episode (zero when unparsable, for reconciliation to settle).
pub open spec fn label_infos(uri: Seq<char>, urls: Seq<Seq<char>>, labels: Seq<Seq<char>>) -> Seq<
    InfoV,
> {
    Seq::new(
        urls.len(),
        |i: int|
            InfoV {
                site: uri,
                url: urls[i],
                titles: seq![labels[i]],
                episode: episode_of_label(labels[i]),
                account: Option::None,
            },
    )
}

/// The chapter entries of a batch whose episode tokens are given directly:
/// one entry per url, titled and numbered by the token (dashes read as dots).
pub open spec fn episode_infos(uri: Seq<char>, urls: Seq<Seq<char>>, eps: Seq<Seq<char>>) -> Seq<
    InfoV,
> {
    Seq::new(
        urls.len(),
        |i: int|
            InfoV {
                site: uri,
                url: urls[i],
                titles: seq![dashes_to_dots(eps[i])],
                episode: spec_parse_decimal(dashes_to_dots(eps[i]))->0 as u64,
                account: Option::None,
            },
    )
}

/// Why a chapter batch could not be assembled.
pub enum ChapErr {
    /// No known combination of fields is present.
    NoFields,
    /// A field that should hold a JSON array of strings does not.
    Json,
    /// The urls and labels disagree in number, or there are none.
    BadLens,
    /// An episode token is not a decimal number the engine can carry.
    BadFloat,
}

/// What assembling chapter entries from extracted fields yields: the `urls`
/// field zipped with `labels` (episodes parsed out of the labels) or with
/// `episodes` (tokens parsed directly, every one of which must parse).
pub open spec fn chapters_outcome(uri: Seq<char>, pairs: Seq<(Seq<char>, Seq<char>)>) -> Result<
    Seq<InfoV>,
    ChapErr,
> {
    match lookup(pairs, "urls"@) {
        Option::None => Err(ChapErr::NoFields),
        Option::Some(urls_raw) => match parsed_string_array(urls_raw) {
            Option::None => Err(ChapErr::Json),
            Option::Some(urls) => match lookup(pairs, "labels"@) {
                Option::Some(labels_raw) => match parsed_string_array(labels_raw) {
                    Option::None => Err(ChapErr::Json),
                    Option::Some(labels) => if labels.len() != urls.len() || urls.len() == 0 {
                        Err(ChapErr::BadLens)
                    } else {
                        Ok(label_infos(uri, urls, labels))
                    },
                },
                Option::None => match lookup(pairs, "episodes"@) {
                    Option::Some(eps_raw) => match parsed_string_array(eps_raw) {
                        Option::None => Err(ChapErr::Json),
                        Option::Some(eps) => if eps.len() != urls.len() || urls.len() == 0 {
                            Err(ChapErr::BadLens)
                        } else if exists|i: int|
                            0 <= i < eps.len() && !(match spec_parse_decimal(
                                dashes_to_dots(#[trigger] eps[i]),
                            ) {
                                Option::Some(c) => c <= EPISODE_CENTI_MAX,
                                Option::None => false,
                            }) {
                            Err(ChapErr::BadFloat)
                        } else {
                            Ok(episode_infos(uri, urls, eps))
                        },
                    },
                    Option::None => Err(ChapErr::NoFields),
                },
            },
        },
    }
}

/// The four assembly error messages are pairwise distinct texts.
proof fn lemma_chap_messages_differ()
    ensures
        "couldnt find fields to process"@.len() == 30,
        "failed to parse json"@.len() == 20,
        "Ivalid labels/urls"@.len() == 18,
        "Failed to parse float"@.len() == 21,
{
    reveal_strlit("couldnt find fields to process");
    reveal_strlit("failed to parse json");
    reveal_strlit("Ivalid labels/urls");
    reveal_strlit("Failed to parse float");
}

/// Turns every dash into a dot.
fn replace_dashes(s: &str) -> (r: String)
    ensures
        r@ == dashes_to_dots(s@),
{
    let v = chars_of(s);
    let n = v.len();
    let mut out: Vec<char> = Vec::new();
    let mut i: usize = 0;
    while i < n
        invariant
            0 <= i <= n,
            n == v@.len(),
            v@ == s@,
            out@ =~= dashes_to_dots(s@.take(i as int)),
        decreases n - i,
    {
        let c = v[i];
        if c == '-' {
            out.push('.');
        } else {
            out.push(c);
        }
        proof {
            assert(out@ =~= dashes_to_dots(s@.take(i + 1 as int)));
        }
        i = i + 1;
    }
    proof {
        assert(s@.take(n as int) =~= s@);
    }
    string_from_chars(&out)
}

/// The value of a bare decimal text, in hundredths, when the whole text is
/// one number token that the engine can carry.
fn parse_decimal(s: &str) -> (r: Option<u64>)
    ensures
        match r {
            Option::Some(c) => spec_parse_decimal(s@) == Option::Some(c as int) && c
                <= EPISODE_CENTI_MAX,
            Option::None => match spec_parse_decimal(s@) {
                Option::Some(c) => c > EPISODE_CENTI_MAX,
                Option::None => true,
            },
        },
{
    let v = chars_of(s);
    let n = v.len();
    if n == 0 {
        return None;
    }
    if !crate::field::is_digit(v[0]) {
        return None;
    }
    // The token must cover the whole text.
    let mut d1: usize = 0;
    while d1 < n && crate::field::is_digit(v[d1])
        invariant
            0 <= d1 <= n,
            n == v@.len(),
            v@ == s@,
            forall|j: int| 0 <= j < d1 ==> is_digit_char(#[trigger] v@[j]),
        decreases n - d1,
    {
        d1 = d1 + 1;
    }
    proof {
        crate::field::lemma_digits_end_is(v@, 0, d1 as int);
    }
    if d1 < n {
        if n - d1 < 2 || v[d1] != '.' || !crate::field::is_digit(v[d1 + 1]) {
            return None;
        }
        let mut d2: usize = d1 + 1;
        while d2 < n && crate::field::is_digit(v[d2])
            invariant
                d1 + 1 <= d2 <= n,
                n == v@.len(),
                v@ == s@,
                forall|j: int| d1 + 1 <= j < d2 ==> is_digit_char(#[trigger] v@[j]),
            decreases n - d2,
        {
            d2 = d2 + 1;
        }
        proof {
            crate::field::lemma_digits_end_is(v@, d1 + 1 as int, d2 as int);
        }
        if d2 < n {
            return None;
        }
    }
    match crate::reconcile::parse_token(&v, 0) {
        Ok(c) => Some(c),
        Err(_) => None,
    }
}

/// Assembles the chapter entries of a scraped listing from its extracted
/// fields.
///
/// The `urls` field (a JSON array) is zipped with `labels` (episode numbers
/// parsed out of the labels; an unparsable label leaves zero, for
/// reconciliation to settle) or, when no labels were extracted, with
/// `episodes` (bare number tokens, dashes read as dots, every one of which
/// must parse). Unequal counts, an empty batch, a field that is not a JSON
/// array, and a missing field combination each fail with the error stated.
#[verifier::loop_isolation(false)]
#[verifier::rlimit(100)]
pub fn chapters_from_fields(uri: &str, fields: &Vec<(String, String)>) -> (r: Result<
    Vec<Info>,
    ScrapeError,
>)
    ensures
        r matches Ok(infos) ==> chapters_outcome(uri@, fields.deep_view()) matches Ok(ivs)
            && infos@.len() == ivs.len() && (forall|i: int|
            0 <= i < ivs.len() ==> #[trigger] infos@[i]@ == ivs[i]),
        r matches Err(e) ==> {
            &&& chapters_outcome(uri@, fields.deep_view()) is Err
            &&& (chapters_outcome(uri@, fields.deep_view()) == Err::<Seq<InfoV>, ChapErr>(
                ChapErr::NoFields,
            ) <==> e.message@ == "couldnt find fields to process"@)
            &&& (chapters_outcome(uri@, fields.deep_view()) == Err::<Seq<InfoV>, ChapErr>(
                ChapErr::Json,
            ) <==> e.message@ == "failed to parse json"@)
            &&& (chapters_outcome(uri@, fields.deep_view()) == Err::<Seq<InfoV>, ChapErr>(
                ChapErr::BadLens,
            ) <==> e.message@ == "Ivalid labels/urls"@)
            &&& (chapters_outcome(uri@, fields.deep_view()) == Err::<Seq<InfoV>, ChapErr>(
                ChapErr::BadFloat,
            ) <==> e.message@ == "Failed to parse float"@)
        },
{
    proof {
        lemma_chap_messages_differ();
    }
    let urls_key = String::from_str("urls");
    let labels_key = String::from_str("labels");
    let episodes_key = String::from_str("episodes");
    let urls_raw = match map_get(fields, &urls_key) {
        Some(v) => v,
        None => {
            return Err(ScrapeError::extraction_error("couldnt find fields to process"));
        },
    };
    let urls = match decode_string_array(urls_raw.as_str()) {
        Some(v) => v,
        None => {
            return Err(ScrapeError::input_error("failed to parse json"));
        },
    };
    if let Some(labels_raw) = map_get(fields, &labels_key) {
        let labels = match decode_string_array(labels_raw.as_str()) {
            Some(v) => v,
            None => {
                return Err(ScrapeError::input_error("failed to parse json"));
            },
        };
        if labels.len() != urls.len() || urls.len() == 0 {
            return Err(ScrapeError::input_error("Ivalid labels/urls"));
        }
        let ghost ivs = label_infos(uri@, urls.deep_view(), labels.deep_view());
        let n = urls.len();
        let mut infos: Vec<Info> = Vec::new();
        let mut i: usize = 0;
        while i < n
            invariant
                0 <= i <= n,
                infos@.len() == i,
                forall|j: int| 0 <= j < i ==> #[trigger] infos@[j]@ == ivs[j],
            decreases n - i,
        {
            proof {
                assert(urls.deep_view()[i as int] == urls@[i as int]@);
                assert(labels.deep_view()[i as int] == labels@[i as int]@);
            }
            let title = labels[i].clone();
            let episode = match parse_episode(title.as_str()) {
                Ok(c) => c,
                Err(_) => 0,
            };
            let entry = Info {
                site: uri.to_owned(),
                url: urls[i].clone(),
                titles: vec![title],
                episode,
                account: None,
            };
            proof {
                assert(entry.titles.deep_view() =~= seq![labels@[i as int]@]);
            }
            infos.push(entry);
            i = i + 1;
        }
        Ok(infos)
    } else if let Some(eps_raw) = map_get(fields, &episodes_key) {
        let eps = match decode_string_array(eps_raw.as_str()) {
            Some(v) => v,
            None => {
                return Err(ScrapeError::input_error("failed to parse json"));
            },
        };
        if eps.len() != urls.len() || urls.len() == 0 {
            return Err(ScrapeError::input_error("Ivalid labels/urls"));
        }
        let ghost ivs = episode_infos(uri@, urls.deep_view(), eps.deep_view());
        let n = urls.len();
        let mut infos: Vec<Info> = Vec::new();
        let mut i: usize = 0;
        while i < n
            invariant
                0 <= i <= n,
                n == eps@.len(),
                infos@.len() == i,
                forall|j: int| 0 <= j < i ==> #[trigger] infos@[j]@ == ivs[j],
                forall|j: int|
                    0 <= j < i ==> (match spec_parse_decimal(
                        dashes_to_dots(#[trigger] eps.deep_view()[j]),
                    ) {
                        Option::Some(c) => c <= EPISODE_CENTI_MAX,
                        Option::None => false,
                    }),
            decreases n - i,
        {
            proof {
                assert(urls.deep_view()[i as int] == urls@[i as int]@);
                assert(eps.deep_view()[i as int] == eps@[i as int]@);
            }
            let title = replace_dashes(eps[i].as_str());
            let episode = match parse_decimal(title.as_str()) {
                Some(c) => c,
                None => {
                    return Err(ScrapeError::input_error("Failed to parse float"));
                },
            };
            let entry = Info {
                site: uri.to_owned(),
                url: urls[i].clone(),
                titles: vec![title],
                episode,
                account: None,
            };
            proof {
                assert(entry.titles.deep_view() =~= seq![dashes_to_dots(eps.deep_view()[i as int])]);
            }
            infos.push(entry);
            i = i + 1;
        }
        Ok(infos)
    } else {
        Err(ScrapeError::extraction_error("couldnt find fields to process"))
    }
}

/// The text without its tab and newline characters (page urls are cleansed
/// of stray layout characters).
pub open spec fn strip_ctl(s: Seq<char>) -> Seq<char> {
    s.filter(|c: char| c != '\t' && c != '\n')
}

proof fn lemma_filter_singleton(c: char, pred: spec_fn(char) -> bool)
    ensures
        seq![c].filter(pred) =~= (if pred(c) {
            seq![c]
        } else {
            Seq::<char>::empty()
        }),
{
    reveal(Seq::filter);
    assert(seq![c].drop_last() =~= Seq::<char>::empty());
    assert(Seq::<char>::empty().filter(pred) =~= Seq::<char>::empty());
    assert(seq![c].last() == c);
}

/// Removes every tab and newline character.
fn remove_ctl(s: &str) -> (r: String)
    ensures
        r@ == strip_ctl(s@),
{
    let v = chars_of(s);
    let n = v.len();
    let mut out: Vec<char> = Vec::new();
    let mut i: usize = 0;
    while i < n
        invariant
            0 <= i <= n,
            n == v@.len(),
            v@ == s@,
            out@ =~= strip_ctl(s@.take(i as int)),
        decreases n - i,
    {
        let c = v[i];
        let ghost before_out = out@;
        if c != '\t' && c != '\n' {
            out.push(c);
        }
        proof {
            let pred = |c: char| c != '\t' && c != '\n';
            let pre = s@.take(i as int);
            let post = s@.take(i + 1 as int);
            assert(post =~= pre + seq![c]);
            Seq::filter_distributes_over_add(pre, seq![c], pred);
            lemma_filter_singleton(c, pred);
            assert(out@ =~= strip_ctl(post));
        }
        i = i + 1;
    }
    proof {
        assert(s@.take(n as int) =~= s@);
    }
    string_from_chars(&out)
}

/// Why a page list could not be assembled.
pub enum PagesErr {
    /// No known combination of fields is present.
    NoFields,
    /// A field that should hold a JSON array of strings does not.
    Json,
    /// An empty image url has no fallback entry to take.
    MissingBack,
}

/// What assembling a chapter's page list from extracted fields yields: the
/// `imgs` field, each empty entry replaced by the `imgs_back` fallback of the
/// same position when that field is present, every url cleansed of tabs and
/// newlines.
pub open spec fn pages_outcome(pairs: Seq<(Seq<char>, Seq<char>)>) -> Result<
    Seq<Seq<char>>,
    PagesErr,
> {
    match lookup(pairs, "imgs_back"@) {
        Option::Some(back_raw) => match parsed_string_array(back_raw) {
            Option::None => Err(PagesErr::Json),
            Option::Some(back) => match lookup(pairs, "imgs"@) {
                Option::None => Err(PagesErr::NoFields),
                Option::Some(raw) => match parsed_string_array(raw) {
                    Option::None => Err(PagesErr::Json),
                    Option::Some(value) => if exists|i: int|
                        0 <= i < value.len() && (#[trigger] value[i]).len() == 0 && i
                            >= back.len() {
                        Err(PagesErr::MissingBack)
                    } else {
                        Ok(
                            Seq::new(
                                value.len(),
                                |i: int|
                                    strip_ctl(
                                        if value[i].len() == 0 {
                                            back[i]
                                        } else {
                                            value[i]
                                        },
                                    ),
                            ),
                        )
                    },
                },
            },
        },
        Option::None => match lookup(pairs, "imgs"@) {
            Option::Some(raw) => match parsed_string_array(raw) {
                Option::None => Err(PagesErr::Json),
                Option::Some(value) => Ok(value.map_values(|s: Seq<char>| strip_ctl(s))),
            },
            Option::None => Err(PagesErr::NoFields),
        },
    }
}

/// The page-list error messages are distinct texts.
proof fn lemma_pages_messages_differ()
    ensures
        "couldnt find fields to process"@.len() == 30,
        "failed to parse json"@.len() == 20,
        "didnt find node"@.len() == 15,
{
    reveal_strlit("couldnt find fields to process");
    reveal_strlit("failed to parse json");
    reveal_strlit("didnt find node");
}

/// Assembles a chapter's page urls from its extracted fields.
///
/// The `imgs` field (a JSON array) carries the page urls; when an `imgs_back`
/// field is present, an empty url takes the fallback of the same position
/// (one must exist). Every url is cleansed of tab and newline characters.
#[verifier::loop_isolation(false)]
#[verifier::rlimit(100)]
pub fn pages_from_fields(fields: &Vec<(String, String)>) -> (r: Result<Vec<String>, ScrapeError>)
    ensures
        r matches Ok(pages) ==> pages_outcome(fields.deep_view()) matches Ok(urls)
            && pages.deep_view() == urls,
        r matches Err(e) ==> {
            &&& pages_outcome(fields.deep_view()) is Err
            &&& (pages_outcome(fields.deep_view()) == Err::<Seq<Seq<char>>, PagesErr>(
                PagesErr::NoFields,
            ) <==> e.message@ == "couldnt find fields to process"@)
            &&& (pages_outcome(fields.deep_view()) == Err::<Seq<Seq<char>>, PagesErr>(
                PagesErr::Json,
            ) <==> e.message@ == "failed to parse json"@)
            &&& (pages_outcome(fields.deep_view()) == Err::<Seq<Seq<char>>, PagesErr>(
                PagesErr::MissingBack,
            ) <==> e.message@ == "didnt find node"@)
        },
{
    proof {
        lemma_pages_messages_differ();
    }
    let imgs_key = String::from_str("imgs");
    let back_key = String::from_str("imgs_back");
    if let Some(back_raw) = map_get(fields, &back_key) {
        let back = match decode_string_array(back_raw.as_str()) {
            Some(v) => v,
            None => {
                return Err(ScrapeError::input_error("failed to parse json"));
            },
        };
        let raw = match map_get(fields, &imgs_key) {
            Some(v) => v,
            None => {
                return Err(ScrapeError::extraction_error("couldnt find fields to process"));
            },
        };
        let value = match decode_string_array(raw.as_str()) {
            Some(v) => v,
            None => {
                return Err(ScrapeError::input_error("failed to parse json"));
            },
        };
        let n = value.len();
        let mut pages: Vec<String> = Vec::new();
        let mut i: usize = 0;
        while i < n
            invariant
                0 <= i <= n,
                n == value@.len(),
                pages@.len() == i,
                back@.len() == back.deep_view().len(),
                forall|j: int| 0 <= j < i ==> !((#[trigger] value@[j]@).len() == 0 && j >= back@.len()),
                forall|j: int|
                    0 <= j < i ==> #[trigger] pages@[j]@ == strip_ctl(
                        if value@[j]@.len() == 0 {
                            back@[j]@
                        } else {
                            value@[j]@
                        },
                    ),
            decreases n - i,
        {
            let picked: &String;
            if value[i].as_str().unicode_len() == 0 {
                if i >= back.len() {
                    proof {
                        assert(value.deep_view()[i as int] == value@[i as int]@);
                        assert(back.deep_view().len() == back@.len());
                    }
                    return Err(ScrapeError::node_not_found());
                }
                picked = &back[i];
            } else {
                picked = &value[i];
            }
            let cleaned = remove_ctl(picked.as_str());
            pages.push(cleaned);
            i = i + 1;
        }
        proof {
            assert forall|j: int| 0 <= j < n implies !((#[trigger] value.deep_view()[j]).len() == 0
                && j >= back.deep_view().len()) by {
                assert(value.deep_view()[j] == value@[j]@);
            }
            let urls = pages_outcome(fields.deep_view())->Ok_0;
            assert forall|j: int| 0 <= j < n implies pages.deep_view()[j] == urls[j] by {
                assert(pages.deep_view()[j] == pages@[j]@);
                assert(value.deep_view()[j] == value@[j]@);
                if value@[j]@.len() == 0 {
                    assert(back.deep_view()[j] == back@[j]@);
                }
            }
            assert(pages.deep_view() =~~= urls);
        }
        Ok(pages)
    } else if let Some(raw) = map_get(fields, &imgs_key) {
        let value = match decode_string_array(raw.as_str()) {
            Some(v) => v,
            None => {
                return Err(ScrapeError::input_error("failed to parse json"));
            },
        };
        let n = value.len();
        let mut pages: Vec<String> = Vec::new();
        let mut i: usize = 0;
        while i < n
            invariant
                0 <= i <= n,
                n == value@.len(),
                pages@.len() == i,
                forall|j: int| 0 <= j < i ==> #[trigger] pages@[j]@ == strip_ctl(value@[j]@),
            decreases n - i,
        {
            let cleaned = remove_ctl(value[i].as_str());
            pages.push(cleaned);
            i = i + 1;
        }
        proof {
            let urls = value.deep_view().map_values(|s: Seq<char>| strip_ctl(s));
            assert forall|j: int| 0 <= j < n implies pages.deep_view()[j] == urls[j] by {
                assert(pages.deep_view()[j] == pages@[j]@);
                assert(value.deep_view()[j] == value@[j]@);
            }
            assert(pages.deep_view() =~~= urls);
        }
        Ok(pages)
    } else {
        Err(ScrapeError::extraction_error("couldnt find fields to process"))
    }
}

/// What a single-site page list is: the `imgs` field decoded, as it stands.
pub open spec fn single_pages_outcome(pairs: Seq<(Seq<char>, Seq<char>)>) -> Result<
    Seq<Seq<char>>,
    PagesErr,
> {
    match lookup(pairs, "imgs"@) {
        Option::Some(raw) => match parsed_string_array(raw) {
            Option::None => Err(PagesErr::Json),
            Option::Some(value) => Ok(value),
        },
        Option::None => Err(PagesErr::NoFields),
    }
}

/// Assembles a single-site page list: the `imgs` field decoded, unchanged.
pub fn single_pages_from_fields(fields: &Vec<(String, String)>) -> (r: Result<
    Vec<String>,
    ScrapeError,
>)
    ensures
        r matches Ok(pages) ==> single_pages_outcome(fields.deep_view()) matches Ok(urls)
            && pages.deep_view() == urls,
        r matches Err(e) ==> {
            &&& single_pages_outcome(fields.deep_view()) is Err
            &&& (single_pages_outcome(fields.deep_view()) == Err::<Seq<Seq<char>>, PagesErr>(
                PagesErr::NoFields,
            ) <==> e.message@ == "couldnt find fields to process"@)
            &&& (single_pages_outcome(fields.deep_view()) == Err::<Seq<Seq<char>>, PagesErr>(
                PagesErr::Json,
            ) <==> e.message@ == "failed to parse json"@)
        },
{
    proof {
        lemma_pages_messages_differ();
    }
    let imgs_key = String::from_str("imgs");
    match map_get(fields, &imgs_key) {
        Some(raw) => match decode_string_array(raw.as_str()) {
            Some(v) => Ok(v),
            None => Err(ScrapeError::input_error("failed to parse json")),
        },
        None => Err(ScrapeError::extraction_error("couldnt find fields to process")),
    }
}

/// Whether `v` begins with the characters of `kw`.
pub(crate) fn prefix_eq(v: &Vec<char>, kw: &Vec<char>) -> (r: bool)
    ensures
        r == (v@.len() >= kw@.len() && v@.take(kw@.len() as int) =~= kw@),
{
    let m = kw.len();
    if v.len() < m {
        return false;
    }
    let mut j: usize = 0;
    while j < m
        invariant
            0 <= j <= m,
            m <= v@.len(),
            m == kw@.len(),
            forall|k: int| 0 <= k < j ==> v@[k] == kw@[k],
        decreases m - j,
    {
        if v[j] != kw[j] {
            proof {
                if v@.take(m as int) =~= kw@ {
                    assert(v@.take(m as int)[j as int] == kw@[j as int]);
                    assert(false);
                }
            }
            return false;
        }
        j = j + 1;
    }
    proof {
        assert(v@.take(m as int) =~= kw@);
    }
    true
}

/// The index of the first `/` at or after `i`, or the length when there is
/// none.
pub open spec fn first_slash(s: Seq<char>, i: int) -> int
    decreases s.len() - i,
{
    if 0 <= i < s.len() && s[i] != '/' {
        first_slash(s, i + 1)
    } else {
        i
    }
}

proof fn lemma_first_slash_is(s: Seq<char>, i: int, e: int)
    requires
        0 <= i <= e <= s.len(),
        forall|j: int| i <= j < e ==> #[trigger] s[j] != '/',
        e < s.len() ==> s[e] == '/',
    ensures
        first_slash(s, i) == e,
    decreases e - i,
{
    if i < e {
        lemma_first_slash_is(s, i + 1, e);
    }
}

/// The host part of a url: the scheme prefix (`http://` or `https://`)
/// dropped, then everything up to the first `/`.
pub open spec fn host_of(base: Seq<char>) -> Seq<char> {
    let stripped = if base.len() >= 7 && base.take(7) =~= seq![
        'h',
        't',
        't',
        'p',
        ':',
        '/',
        '/',
    ] {
        base.skip(7)
    } else if base.len() >= 8 && base.take(8) =~= seq!['h', 't', 't', 'p', 's', ':', '/', '/'] {
        base.skip(8)
    } else {
        base
    };
    stripped.take(first_slash(stripped, 0))
}

/// The entry with a site-relative url made absolute against the host of
/// `base`; an absolute url is kept as it stands.
pub open spec fn absolutized(v: InfoV, base: Seq<char>) -> InfoV {
    if v.url.len() > 0 && v.url[0] == '/' {
        InfoV {
            site: v.site,
            url: seq!['h', 't', 't', 'p', 's', ':', '/', '/'] + host_of(base) + v.url,
            titles: v.titles,
            episode: v.episode,
            account: v.account,
        }
    } else {
        v
    }
}

/// Makes every site-relative chapter url absolute against the listing's own
/// url: `https://`, the listing's host, then the relative path.
#[verifier::loop_isolation(false)]
#[verifier::rlimit(100)]
pub fn absolutize_urls(infos: Vec<Info>, base_url: &str) -> (r: Vec<Info>)
    ensures
        r@.len() == infos@.len(),
        forall|i: int| 0 <= i < infos@.len() ==> #[trigger] r@[i]@ == absolutized(infos@[i]@, base_url@),
{
    // The host prefix, computed once.
    let b = chars_of(base_url);
    let blen = b.len();
    let http_kw: Vec<char> = vec!['h', 't', 't', 'p', ':', '/', '/'];
    let https_kw: Vec<char> = vec!['h', 't', 't', 'p', 's', ':', '/', '/'];
    proof {
        assert(http_kw@ =~= seq!['h', 't', 't', 'p', ':', '/', '/']);
        assert(https_kw@ =~= seq!['h', 't', 't', 'p', 's', ':', '/', '/']);
    }
    let start: usize;
    let http_hit = prefix_eq(&b, &http_kw);
    let https_hit = prefix_eq(&b, &https_kw);
    if http_hit {
        start = 7;
    } else if https_hit {
        start = 8;
    } else {
        start = 0;
    }
    let ghost stripped = b@.skip(start as int);
    proof {
        let http = seq!['h', 't', 't', 'p', ':', '/', '/'];
        let https = seq!['h', 't', 't', 'p', 's', ':', '/', '/'];
        assert(http_hit == (base_url@.len() >= 7 && base_url@.take(7) =~= http));
        assert(https_hit == (base_url@.len() >= 8 && base_url@.take(8) =~= https));
        if !http_hit && !https_hit {
            assert(b@.skip(0) =~= b@);
        }
        assert(host_of(base_url@) == stripped.take(first_slash(stripped, 0)));
    }
    let mut e: usize = start;
    while e < blen && b[e] != '/'
        invariant
            start <= e <= blen,
            forall|j: int| start <= j < e ==> #[trigger] b@[j] != '/',
        decreases blen - e,
    {
        e = e + 1;
    }
    proof {
        assert forall|j: int| 0 <= j < e - start implies #[trigger] stripped[j] != '/' by {
            assert(stripped[j] == b@[start + j]);
        }
        if e < blen {
            assert(stripped[e - start] == b@[e as int]);
        }
        lemma_first_slash_is(stripped, 0, e - start);
        assert(stripped.take(e - start) =~= b@.subrange(start as int, e as int));
    }
    let host = crate::text::string_of_range(&b, start, e);
    let scheme = String::from_str("https://");
    proof {
        reveal_strlit("https://");
        assert(scheme@ =~= seq!['h', 't', 't', 'p', 's', ':', '/', '/']);
    }
    let prefix = scheme.concat(host.as_str());
    proof {
        assert(host@ == host_of(base_url@));
        assert(prefix@ =~= seq!['h', 't', 't', 'p', 's', ':', '/', '/'] + host_of(base_url@));
    }
    let ghost orig = infos@;
    let mut rem = infos;
    let total = rem.len();
    let mut out: Vec<Info> = Vec::new();
    let mut idx: usize = 0;
    proof {
        assert(rem@ =~= orig.skip(0));
        assert(orig.len() == total);
    }
    while rem.len() > 0
        invariant
            idx == out@.len(),
            idx + rem@.len() == orig.len(),
            orig.len() == total,
            rem@ =~= orig.skip(idx as int),
            prefix@ == seq!['h', 't', 't', 'p', 's', ':', '/', '/'] + host_of(base_url@),
            forall|i: int| 0 <= i < idx ==> #[trigger] out@[i]@ == absolutized(orig[i]@, base_url@),
        decreases rem@.len(),
    {
        let ghost rem_before = rem@;
        let mut entry = rem.remove(0);
        proof {
            assert(rem@ =~= rem_before.drop_first());
            assert(rem@ =~= orig.skip(idx + 1));
            assert(entry == orig[idx as int]);
        }
        let url_str: &str = entry.url.as_str();
        if url_str.unicode_len() > 0 && url_str.get_char(0) == '/' {
            let absolute = prefix.clone().concat(entry.url.as_str());
            entry.url = absolute;
        }
        out.push(entry);
        idx = idx + 1;
    }
    out
}

} // verus!
