//! Metadata cleanup: extracted fields decoded into items or arrays, and
//! labelled field texts split out into their own named entries.

use vstd::prelude::*;

use crate::codec::decode_string_array;
use crate::codec::parsed_string_array;
use crate::error::ErrorKind;
use crate::error::ScrapeError;
use crate::field::first_nl;
use crate::postprocess::lookup;
use crate::text::chars_of;
use crate::text::spec_clean;
use crate::text::string_from_chars;
use crate::text::string_of_range;

verus! {

/// One metadata value: a single text, or an array of texts.
#[derive(Debug)]
pub enum ItemOrArray {
    Item(String),
    Array(Vec<String>),
}

/// The mathematical value of a metadata value.
pub enum ItemOrArrayV {
    Item(Seq<char>),
    Array(Seq<Seq<char>>),
}

impl View for ItemOrArray {
    type V = ItemOrArrayV;

    open spec fn view(&self) -> ItemOrArrayV {
        match self {
            ItemOrArray::Item(s) => ItemOrArrayV::Item(s@),
            ItemOrArray::Array(v) => ItemOrArrayV::Array(v.deep_view()),
        }
    }
}

/// What a raw field value decodes to: an array when it is a JSON array of
/// strings, the text itself otherwise.
pub open spec fn decoded_value(v: Seq<char>) -> ItemOrArrayV {
    match parsed_string_array(v) {
        Option::Some(a) => ItemOrArrayV::Array(a),
        Option::None => ItemOrArrayV::Item(v),
    }
}

/// Every input pair, its value decoded.
pub open spec fn meta_decoded(pairs: Seq<(Seq<char>, Seq<char>)>) -> Seq<
    (Seq<char>, ItemOrArrayV),
> {
    pairs.map_values(|p: (Seq<char>, Seq<char>)| (p.0, decoded_value(p.1)))
}

/// The pairs without those keyed `key`.
pub open spec fn remove_key(pairs: Seq<(Seq<char>, ItemOrArrayV)>, key: Seq<char>) -> Seq<
    (Seq<char>, ItemOrArrayV),
> {
    pairs.filter(|p: (Seq<char>, ItemOrArrayV)| p.0 != key)
}

/// The pairs with `key` bound to `val` alone.
pub open spec fn insert_pair(
    pairs: Seq<(Seq<char>, ItemOrArrayV)>,
    key: Seq<char>,
    val: ItemOrArrayV,
) -> Seq<(Seq<char>, ItemOrArrayV)> {
    remove_key(pairs, key).push((key, val))
}

/// The labels whose texts list genres, split on commas.
pub open spec fn is_genre_label(l: Seq<char>) -> bool {
    l == "Genres:"@ || l == "Demographic:"@ || l == "Themes:"@
}

/// The labels whose texts are numeric site statistics, dropped from the
/// metadata.
pub open spec fn is_skipped_label(l: Seq<char>) -> bool {
    ||| l == "Score:"@
    ||| l == "Chapters:"@
    ||| l == "Favorites:"@
    ||| l == "Members:"@
    ||| l == "Popularity:"@
    ||| l == "Volumes:"@
    ||| l == "Ranked:"@
}

/// The parts of a text between its commas.
pub open spec fn split_commas(s: Seq<char>) -> Seq<Seq<char>>
    decreases s.len(),
{
    let d = first_comma(s, 0);
    if 0 <= d < s.len() {
        seq![s.take(d)] + split_commas(s.skip(d + 1))
    } else {
        seq![s]
    }
}

/// The index of the first comma at or after `i`, or the length when there is
/// none.
pub open spec fn first_comma(s: Seq<char>, i: int) -> int
    decreases s.len() - i,
{
    if 0 <= i < s.len() && s[i] != ',' {
        first_comma(s, i + 1)
    } else {
        i
    }
}

proof fn lemma_first_comma_is(s: Seq<char>, i: int, e: int)
    requires
        0 <= i <= e <= s.len(),
        forall|j: int| i <= j < e ==> #[trigger] s[j] != ',',
        e < s.len() ==> s[e] == ',',
    ensures
        first_comma(s, i) == e,
    decreases e - i,
{
    if i < e {
        lemma_first_comma_is(s, i + 1, e);
    }
}

/// A genre entry: a comma-separated part, truncated at its first newline,
/// then cleaned.
pub open spec fn genre_of(part: Seq<char>) -> Seq<char> {
    spec_clean(part.take(first_nl(part, 0)))
}

/// The genre list of a labelled text.
pub open spec fn genres_of(text: Seq<char>) -> Seq<Seq<char>> {
    split_commas(text).map_values(|part: Seq<char>| genre_of(part))
}

/// What one labelled field contributes: its cleaned data must begin with the
/// label; the remainder, cleaned, is the entry's text. The entry is keyed by
/// the label without its colons; genre labels are split into arrays, the
/// numeric site statistics are dropped.
pub open spec fn enrich_step(
    acc: Seq<(Seq<char>, ItemOrArrayV)>,
    data: Seq<char>,
    label: Seq<char>,
) -> Result<Seq<(Seq<char>, ItemOrArrayV)>, ()> {
    let cd = spec_clean(data);
    if !(cd.len() >= label.len() && cd.take(label.len() as int) == label) {
        Err(())
    } else {
        let text = spec_clean(cd.skip(label.len() as int));
        let key = label.filter(|c: char| c != ':');
        if is_genre_label(label) {
            Ok(insert_pair(acc, key, ItemOrArrayV::Array(genres_of(text))))
        } else if is_skipped_label(label) {
            Ok(acc)
        } else {
            Ok(insert_pair(acc, key, ItemOrArrayV::Item(text)))
        }
    }
}

/// The labelled fields folded in, first to last.
pub open spec fn enrich(
    acc: Seq<(Seq<char>, ItemOrArrayV)>,
    v: Seq<Seq<char>>,
    vv: Seq<Seq<char>>,
    i: int,
) -> Result<Seq<(Seq<char>, ItemOrArrayV)>, ()>
    decreases v.len() - i,
{
    if i < 0 || i >= v.len() {
        Ok(acc)
    } else {
        match enrich_step(acc, v[i], vv[i]) {
            Ok(acc2) => enrich(acc2, v, vv, i + 1),
            Err(e) => Err(e),
        }
    }
}

/// What organizing raw metadata fields yields. Every value decodes to an item
/// or an array. A `fields_labels` array paired with a `labels` array of equal
/// length is split out: both are removed, and each labelled text becomes its
/// own entry per `enrich_step`. A `fields_labels` entry of any other shape is
/// dropped alone; a `labels` entry of another shape is dropped with it;
/// unequal lengths leave the rest untouched.
pub open spec fn meta_outcome(pairs: Seq<(Seq<char>, Seq<char>)>) -> Result<
    Seq<(Seq<char>, ItemOrArrayV)>,
    (),
> {
    let base = meta_decoded(pairs);
    match lookup(pairs, "fields_labels"@) {
        Option::None => Ok(base),
        Option::Some(raw_fl) => {
            let base1 = remove_key(base, "fields_labels"@);
            match parsed_string_array(raw_fl) {
                Option::None => Ok(base1),
                Option::Some(v) => match lookup(pairs, "labels"@) {
                    Option::None => Ok(base1),
                    Option::Some(raw_lb) => {
                        let base2 = remove_key(base1, "labels"@);
                        match parsed_string_array(raw_lb) {
                            Option::None => Ok(base2),
                            Option::Some(vv) => if v.len() != vv.len() {
                                Ok(base2)
                            } else {
                                enrich(base2, v, vv, 0)
                            },
                        }
                    },
                },
            }
        },
    }
}

impl DeepView for ItemOrArray {
    type V = ItemOrArrayV;

    open spec fn deep_view(&self) -> ItemOrArrayV {
        self.view()
    }
}

/// Pushing an element filters like the element alone.
proof fn lemma_filter_snoc<A>(s: Seq<A>, x: A, pred: spec_fn(A) -> bool)
    ensures
        s.push(x).filter(pred) == (if pred(x) {
            s.filter(pred).push(x)
        } else {
            s.filter(pred)
        }),
{
    reveal(Seq::filter);
    assert(s.push(x).drop_last() =~= s);
    assert(s.push(x).last() == x);
    if pred(x) {
    } else {
    }
}

/// Removes every pair keyed `key`, keeping the rest in order.
#[verifier::loop_isolation(false)]
fn remove_key_exec(pairs: Vec<(String, ItemOrArray)>, key: &String) -> (r: Vec<
    (String, ItemOrArray),
>)
    ensures
        r.deep_view() == remove_key(pairs.deep_view(), key@),
{
    let ghost orig = pairs.deep_view();
    let ghost pred = |p: (Seq<char>, ItemOrArrayV)| p.0 != key@;
    let mut rem = pairs;
    let total = rem.len();
    let mut out: Vec<(String, ItemOrArray)> = Vec::new();
    let mut idx: usize = 0;
    proof {
        reveal(Seq::filter);
        assert(orig.take(0) =~= Seq::<(Seq<char>, ItemOrArrayV)>::empty());
        assert(out.deep_view() =~= orig.take(0).filter(pred));
    }
    while rem.len() > 0
        invariant
            idx + rem@.len() == orig.len(),
            orig.len() == total,
            rem.deep_view() =~= orig.skip(idx as int),
            out.deep_view() == orig.take(idx as int).filter(pred),
        decreases rem@.len(),
    {
        let ghost rem_before = rem.deep_view();
        let ghost out_before = out.deep_view();
        let ghost first = rem@[0];
        proof {
            assert(rem.deep_view()[0] == rem@[0].deep_view());
        }
        let p = rem.remove(0);
        proof {
            assert(rem.deep_view() =~= rem_before.drop_first());
            assert(rem.deep_view() =~= orig.skip(idx + 1));
            assert(p == first);
            assert(p.deep_view() == rem_before[0]);
            assert(rem_before[0] == orig[idx as int]);
            lemma_filter_snoc(orig.take(idx as int), orig[idx as int], pred);
            assert(orig.take(idx + 1).drop_last() =~= orig.take(idx as int));
            assert(orig.take(idx + 1) =~= orig.take(idx as int).push(orig[idx as int]));
        }
        if !p.0.eq(key) {
            out.push(p);
            proof {
                assert(out.deep_view() =~= out_before.push(orig[idx as int]));
            }
        }
        idx = idx + 1;
    }
    proof {
        assert(orig.take(idx as int) =~= orig);
    }
    out
}

/// The genre entries of a labelled text: comma-separated parts, each
/// truncated at its first newline and cleaned.
#[verifier::loop_isolation(false)]
#[verifier::rlimit(100)]
fn split_genres(text: &str) -> (r: Vec<String>)
    ensures
        r.deep_view() == genres_of(text@),
{
    let tv = chars_of(text);
    let n = tv.len();
    let mut out: Vec<String> = Vec::new();
    let mut pos: usize = 0;
    let mut done = false;
    let ghost gf = |part: Seq<char>| genre_of(part);
    proof {
        assert(text@.skip(0) =~= text@);
        assert(out.deep_view() =~= Seq::<Seq<char>>::empty());
        assert(out.deep_view() + split_commas(text@).map_values(gf) =~= split_commas(
            text@,
        ).map_values(gf));
    }
    while !done
        invariant
            0 <= pos <= n,
            n == text@.len(),
            tv@ == text@,
            !done ==> genres_of(text@) == out.deep_view() + split_commas(
                text@.skip(pos as int),
            ).map_values(gf),
            done ==> genres_of(text@) == out.deep_view(),
        decreases n - pos, (if done {
            0int
        } else {
            1int
        }),
    {
        let ghost tail = text@.skip(pos as int);
        // This part's end: the next comma.
        let mut d: usize = pos;
        while d < n && tv[d] != ','
            invariant
                pos <= d <= n,
                forall|j: int| pos <= j < d ==> #[trigger] tv@[j] != ',',
            decreases n - d,
        {
            d = d + 1;
        }
        proof {
            assert forall|j: int| 0 <= j < d - pos implies #[trigger] tail[j] != ',' by {
                assert(tail[j] == tv@[pos + j]);
            }
            if d < n {
                assert(tail[d - pos] == tv@[d as int]);
            }
            lemma_first_comma_is(tail, 0, d - pos);
        }
        // The entry: the part up to its first newline, cleaned.
        let mut e: usize = pos;
        while e < d && tv[e] != '\n'
            invariant
                pos <= e <= d <= n,
                forall|j: int| pos <= j < e ==> #[trigger] tv@[j] != '\n',
            decreases d - e,
        {
            e = e + 1;
        }
        let ghost part = tail.take(d - pos);
        proof {
            assert(part =~= text@.subrange(pos as int, d as int));
            assert forall|j: int| 0 <= j < e - pos implies #[trigger] part[j] != '\n' by {
                assert(part[j] == tv@[pos + j]);
            }
            if e < d {
                assert(part[e - pos] == tv@[e as int]);
            }
            crate::field::lemma_first_nl_is(part, 0, e - pos);
            assert(part.take(e - pos) =~= text@.subrange(pos as int, e as int));
        }
        let raw = string_of_range(&tv, pos, e);
        let entry = crate::text::clean_text(raw);
        let ghost out_before = out.deep_view();
        out.push(entry);
        proof {
            assert(out.deep_view() =~= out_before.push(genre_of(part)));
            if d < n {
                assert(split_commas(tail) == seq![part] + split_commas(text@.skip(d + 1))) by {
                    assert(tail.skip(d - pos + 1) =~= text@.skip(d + 1));
                }
                assert((seq![part] + split_commas(text@.skip(d + 1))).map_values(gf)
                    =~= seq![genre_of(part)] + split_commas(text@.skip(d + 1)).map_values(gf));
                assert(out_before.push(genre_of(part)) + split_commas(text@.skip(d + 1)).map_values(
                    gf,
                ) =~= out_before + (seq![genre_of(part)] + split_commas(
                    text@.skip(d + 1),
                ).map_values(gf)));
            } else {
                assert(split_commas(tail) == seq![tail]);
                assert(tail =~= part);
                assert(seq![tail].map_values(gf) =~= seq![genre_of(part)]);
                assert(out_before + seq![genre_of(part)] =~= out.deep_view());
            }
        }
        if d == n {
            done = true;
        } else {
            pos = d + 1;
        }
    }
    out
}

/// Decodes and organizes raw metadata fields.
///
/// Every value becomes an item, or an array when it is a JSON array of
/// strings. A `fields_labels` array paired with an equally long `labels`
/// array is split out: each labelled text, which must begin with its label,
/// becomes an entry of its own, keyed by the label without its colons; genre
/// labels are split into arrays and the numeric site statistics are dropped.
/// A labelled text that does not begin with its label is an extraction error.
#[verifier::loop_isolation(false)]
#[verifier::rlimit(100)]
pub fn organize_metadata(fields: &Vec<(String, String)>) -> (r: Result<
    Vec<(String, ItemOrArray)>,
    ScrapeError,
>)
    ensures
        r matches Ok(out) ==> meta_outcome(fields.deep_view()) == Ok::<
            Seq<(Seq<char>, ItemOrArrayV)>,
            (),
        >(out.deep_view()),
        r matches Err(e) ==> meta_outcome(fields.deep_view()) is Err && e.kind
            == ErrorKind::Extraction && e.message@ == "didnt find node"@,
{
    // Decode every value.
    let n = fields.len();
    let mut base: Vec<(String, ItemOrArray)> = Vec::new();
    let mut i: usize = 0;
    while i < n
        invariant
            0 <= i <= n,
            n == fields@.len(),
            base@.len() == i,
            forall|j: int|
                0 <= j < i ==> (#[trigger] base.deep_view()[j]).0 == fields.deep_view()[j].0
                    && base.deep_view()[j].1 == decoded_value(fields.deep_view()[j].1),
        decreases n - i,
    {
        proof {
            assert(fields.deep_view()[i as int].0 == fields@[i as int].0@);
            assert(fields.deep_view()[i as int].1 == fields@[i as int].1@);
        }
        let name = fields[i].0.clone();
        let value = match decode_string_array(fields[i].1.as_str()) {
            Some(arr) => ItemOrArray::Array(arr),
            None => ItemOrArray::Item(fields[i].1.clone()),
        };
        proof {
            assert(value.deep_view() == decoded_value(fields.deep_view()[i as int].1));
        }
        let ghost before = base.deep_view();
        let ghost valv = value.deep_view();
        base.push((name, value));
        proof {
            assert(base.deep_view()[i as int] == base@[i as int].deep_view());
            assert(base.deep_view()[i as int].0 == fields.deep_view()[i as int].0);
            assert(base.deep_view()[i as int].1 == valv);
            assert(valv == decoded_value(fields.deep_view()[i as int].1));
            assert forall|j: int|
                0 <= j < i + 1 implies (#[trigger] base.deep_view()[j]).0
                    == fields.deep_view()[j].0 && base.deep_view()[j].1 == decoded_value(
                    fields.deep_view()[j].1,
                ) by {
                if j < i {
                    assert(base.deep_view()[j] == base@[j].deep_view());
                    assert(base.deep_view()[j] == before[j]);
                }
            }
        }
        i = i + 1;
    }
    proof {
        assert forall|j: int| 0 <= j < n implies base.deep_view()[j] == meta_decoded(
            fields.deep_view(),
        )[j] by {}
        assert(base.deep_view() =~~= meta_decoded(fields.deep_view()));
    }
    let fl_key = String::from_str("fields_labels");
    let lb_key = String::from_str("labels");
    let raw_fl = match crate::postprocess::map_get(fields, &fl_key) {
        Some(v) => v.clone(),
        None => {
            return Ok(base);
        },
    };
    let base1 = remove_key_exec(base, &fl_key);
    let v = match decode_string_array(raw_fl.as_str()) {
        Some(arr) => arr,
        None => {
            return Ok(base1);
        },
    };
    let raw_lb = match crate::postprocess::map_get(fields, &lb_key) {
        Some(x) => x.clone(),
        None => {
            return Ok(base1);
        },
    };
    let base2 = remove_key_exec(base1, &lb_key);
    let vv = match decode_string_array(raw_lb.as_str()) {
        Some(arr) => arr,
        None => {
            return Ok(base2);
        },
    };
    if v.len() != vv.len() {
        return Ok(base2);
    }
    // Fold the labelled fields in.
    let ghost vdv = v.deep_view();
    let ghost vvdv = vv.deep_view();
    let m = v.len();
    let mut acc = base2;
    let mut k: usize = 0;
    proof {
        assert(enrich(acc.deep_view(), vdv, vvdv, 0) == enrich(acc.deep_view(), vdv, vvdv, 0));
    }
    let ghost target = enrich(base2.deep_view(), vdv, vvdv, 0);
    while k < m
        invariant
            0 <= k <= m,
            m == v@.len(),
            m == vv@.len(),
            vdv == v.deep_view(),
            vvdv == vv.deep_view(),
            target == enrich(acc.deep_view(), vdv, vvdv, k as int),
        decreases m - k,
    {
        proof {
            assert(vdv[k as int] == v@[k as int]@);
            assert(vvdv[k as int] == vv@[k as int]@);
        }
        let data = v[k].clone();
        let label = &vv[k];
        let cd = crate::text::clean_text(data);
        let cdv = chars_of(cd.as_str());
        let labelv = chars_of(label.as_str());
        if !crate::postprocess::prefix_eq(&cdv, &labelv) {
            return Err(ScrapeError::node_not_found());
        }
        let text_raw = string_of_range(&cdv, labelv.len(), cdv.len());
        proof {
            assert(text_raw@ =~= spec_clean(vdv[k as int]).skip(vvdv[k as int].len() as int));
        }
        let text = crate::text::clean_text(text_raw);
        // The key: the label without its colons.
        let mut keyv: Vec<char> = Vec::new();
        let ll = labelv.len();
        let mut t: usize = 0;
        proof {
            reveal(Seq::filter);
            assert(labelv@.take(0) =~= Seq::<char>::empty());
            assert(keyv@ =~= labelv@.take(0).filter(|c: char| c != ':'));
        }
        while t < ll
            invariant
                0 <= t <= ll,
                ll == labelv@.len(),
                keyv@ == labelv@.take(t as int).filter(|c: char| c != ':'),
            decreases ll - t,
        {
            let c = labelv[t];
            proof {
                lemma_filter_snoc(labelv@.take(t as int), labelv@[t as int], |c2: char| c2 != ':');
                assert(labelv@.take(t + 1 as int) =~= labelv@.take(t as int).push(
                    labelv@[t as int],
                ));
            }
            if c != ':' {
                keyv.push(c);
            }
            t = t + 1;
        }
        proof {
            assert(labelv@.take(ll as int) =~= labelv@);
        }
        let key = string_from_chars(&keyv);
        let genres_hit = label.eq(&String::from_str("Genres:")) || label.eq(
            &String::from_str("Demographic:"),
        ) || label.eq(&String::from_str("Themes:"));
        let skip_hit = label.eq(&String::from_str("Score:")) || label.eq(
            &String::from_str("Chapters:"),
        ) || label.eq(&String::from_str("Favorites:")) || label.eq(
            &String::from_str("Members:"),
        ) || label.eq(&String::from_str("Popularity:")) || label.eq(
            &String::from_str("Volumes:"),
        ) || label.eq(&String::from_str("Ranked:"));
        if genres_hit {
            let genres = split_genres(text.as_str());
            let mut acc2 = remove_key_exec(acc, &key);
            acc2.push((key, ItemOrArray::Array(genres)));
            proof {
                assert(acc2.deep_view()[acc2.deep_view().len() - 1] == acc2@[acc2@.len()
                    - 1].deep_view());
                assert(acc2.deep_view() =~= insert_pair(
                    acc.deep_view(),
                    keyv@,
                    ItemOrArrayV::Array(genres_of(text@)),
                ));
            }
            acc = acc2;
        } else if skip_hit {
        } else {
            let mut acc2 = remove_key_exec(acc, &key);
            acc2.push((key, ItemOrArray::Item(text)));
            proof {
                assert(acc2.deep_view()[acc2.deep_view().len() - 1] == acc2@[acc2@.len()
                    - 1].deep_view());
                assert(acc2.deep_view() =~= insert_pair(
                    acc.deep_view(),
                    keyv@,
                    ItemOrArrayV::Item(text@),
                ));
            }
            acc = acc2;
        }
        k = k + 1;
    }
    Ok(acc)
}

} // verus!
