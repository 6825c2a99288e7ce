use scrape_core::error::ErrorKind;
use scrape_core::metadata::organize_metadata;
use scrape_core::metadata::ItemOrArray;
use scrape_core::postprocess::absolutize_urls;
use scrape_core::postprocess::chapters_from_fields;
use scrape_core::postprocess::pages_from_fields;
use scrape_core::postprocess::single_pages_from_fields;
use scrape_core::reconcile::parse_episode;
use scrape_core::reconcile::reconcile_episodes;
use scrape_core::reconcile::Info;
use scrape_core::reconcile::Policy;

fn entry(url: &str, label: &str) -> Info {
    Info {
        site: "site".to_string(),
        url: url.to_string(),
        titles: vec![label.to_string()],
        episode: parse_episode(label).unwrap_or(0),
        account: None,
    }
}

#[test]
fn parse_episode_reads_chapter_numbers() {
    // Episode numbers are carried in hundredths.
    assert_eq!(parse_episode("Chapter 10.25").unwrap(), 1025);
    assert_eq!(parse_episode("chapter 3").unwrap(), 300);
    assert_eq!(parse_episode("Ch. 2").unwrap(), 200);
    assert_eq!(parse_episode("\u{7B2C}5\u{8A71}").unwrap(), 500);
}

#[test]
fn parse_episode_rejects_unnumbered_labels() {
    let err = parse_episode("no number here").unwrap_err();
    assert_eq!(err.kind, ErrorKind::Input);
    assert_eq!(err.message, "couldnt find chapter number");
}

#[test]
fn parse_episode_takes_the_first_pattern() {
    assert_eq!(parse_episode("Chapter 7 (ch. 9)").unwrap(), 700);
}

#[test]
fn parse_episode_truncates_beyond_hundredths() {
    assert_eq!(parse_episode("chapter 1.005").unwrap(), 100);
}

#[test]
fn parse_episode_rejects_oversized_numbers() {
    let err = parse_episode("chapter 99999999999999999999").unwrap_err();
    assert_eq!(err.kind, ErrorKind::Input);
    assert_eq!(err.message, "episode number too large");
}

#[test]
fn strict_duplicates_fail() {
    let now = vec![
        entry("url1", "Chapter 1"),
        entry("url2", "Chapter 2"),
        entry("url3", "Chapter 2"),
    ];
    let err = reconcile_episodes(now, Vec::new(), Policy::Strict).unwrap_err();
    assert_eq!(err.kind, ErrorKind::Input);
    assert_eq!(err.message, "episode does already exist");
}

#[test]
fn distinct_episodes_reconcile() {
    let now = vec![entry("url1", "Chapter 1.5"), entry("url2", "Ch. 2")];
    let (now2, later2) = reconcile_episodes(now, Vec::new(), Policy::Strict).unwrap();
    assert_eq!(now2.len(), 2);
    assert_eq!(now2[0].episode, 150);
    assert_eq!(now2[1].episode, 200);
    assert_eq!(now2[0].url, "url1");
    assert_eq!(now2[1].url, "url2");
    assert!(later2.is_empty());
}

#[test]
fn strict_rejects_unparsed_episodes() {
    let now = vec![entry("url1", "no number")];
    let err = reconcile_episodes(now, Vec::new(), Policy::Strict).unwrap_err();
    assert_eq!(err.message, "failed to parse episode");
}

#[test]
fn permissive_substitutes_and_steps_past_collisions() {
    let now = vec![
        entry("url1", "Chapter 1"),
        entry("url2", "no number"),
        entry("url3", "no number"),
    ];
    let (now2, _) = reconcile_episodes(now, Vec::new(), Policy::Permissive).unwrap();
    assert_eq!(now2[0].episode, 100);
    assert_eq!(now2[1].episode, 101);
    assert_eq!(now2[2].episode, 102);
}

#[test]
fn permissive_still_rejects_nonzero_collisions() {
    let now = vec![entry("url1", "Chapter 2"), entry("url2", "Chapter 2")];
    let err = reconcile_episodes(now, Vec::new(), Policy::Permissive).unwrap_err();
    assert_eq!(err.message, "episode does already exist");
}

#[test]
fn later_entries_are_never_repaired() {
    let now = vec![entry("url1", "Chapter 1")];
    let later = vec![entry("url2", "Chapter 1")];
    let err = reconcile_episodes(now, later, Policy::Permissive).unwrap_err();
    assert_eq!(err.message, "episode does already exist");

    let now = vec![entry("url1", "Chapter 1")];
    let later = vec![entry("url2", "no number")];
    let err = reconcile_episodes(now, later, Policy::Permissive).unwrap_err();
    assert_eq!(err.message, "failed to parse episode");
}

fn pairs(entries: &[(&str, &str)]) -> Vec<(String, String)> {
    entries.iter().map(|(k, v)| (k.to_string(), v.to_string())).collect()
}

#[test]
fn chapters_zip_urls_with_labels() {
    let fields = pairs(&[
        ("urls", "[\"u1\",\"u2\"]"),
        ("labels", "[\"Chapter 1\",\"gap\"]"),
    ]);
    let infos = chapters_from_fields("site", &fields).unwrap();
    assert_eq!(infos.len(), 2);
    assert_eq!(infos[0].url, "u1");
    assert_eq!(infos[0].titles, vec!["Chapter 1".to_string()]);
    assert_eq!(infos[0].episode, 100);
    assert_eq!(infos[1].episode, 0);
}

#[test]
fn chapters_zip_urls_with_episode_tokens() {
    let fields = pairs(&[("urls", "[\"u1\"]"), ("episodes", "[\"12-5\"]")]);
    let infos = chapters_from_fields("site", &fields).unwrap();
    assert_eq!(infos[0].titles, vec!["12.5".to_string()]);
    assert_eq!(infos[0].episode, 1250);
}

#[test]
fn chapters_reject_mismatched_counts() {
    let fields = pairs(&[("urls", "[\"u1\",\"u2\"]"), ("labels", "[\"Chapter 1\"]")]);
    let err = chapters_from_fields("site", &fields).unwrap_err();
    assert_eq!(err.message, "Ivalid labels/urls");
}

#[test]
fn chapters_reject_bad_json_and_bad_tokens() {
    let fields = pairs(&[("urls", "not json"), ("labels", "[]")]);
    let err = chapters_from_fields("site", &fields).unwrap_err();
    assert_eq!(err.message, "failed to parse json");

    let fields = pairs(&[("urls", "[\"u\"]"), ("episodes", "[\"x\"]")]);
    let err = chapters_from_fields("site", &fields).unwrap_err();
    assert_eq!(err.message, "Failed to parse float");
}

#[test]
fn chapters_need_a_known_field_combination() {
    let err = chapters_from_fields("site", &pairs(&[("other", "x")])).unwrap_err();
    assert_eq!(err.kind, ErrorKind::Extraction);
    assert_eq!(err.message, "couldnt find fields to process");
}

#[test]
fn relative_chapter_urls_become_absolute() {
    let infos = vec![
        Info {
            site: "s".to_string(),
            url: "/ch/1".to_string(),
            titles: vec![],
            episode: 100,
            account: None,
        },
        Info {
            site: "s".to_string(),
            url: "https://other.site/ch/2".to_string(),
            titles: vec![],
            episode: 200,
            account: None,
        },
    ];
    let out = absolutize_urls(infos, "https://example.com/manga/title");
    assert_eq!(out[0].url, "https://example.com/ch/1");
    assert_eq!(out[1].url, "https://other.site/ch/2");
}

#[test]
fn pages_take_fallbacks_and_lose_stray_characters() {
    let fields = pairs(&[
        ("imgs", "[\"a\\t.png\",\"\"]"),
        ("imgs_back", "[\"x.png\",\"b\\n.png\"]"),
    ]);
    let urls = pages_from_fields(&fields).unwrap();
    assert_eq!(urls, vec!["a.png".to_string(), "b.png".to_string()]);
}

#[test]
fn pages_without_fallback_entry_fail() {
    let fields = pairs(&[("imgs", "[\"\",\"\"]"), ("imgs_back", "[\"x.png\"]")]);
    let err = pages_from_fields(&fields).unwrap_err();
    assert_eq!(err.message, "didnt find node");
}

#[test]
fn single_site_pages_decode_unchanged() {
    let fields = pairs(&[("imgs", "[\"a\\t.png\"]")]);
    let urls = single_pages_from_fields(&fields).unwrap();
    assert_eq!(urls, vec!["a\t.png".to_string()]);

    let err = single_pages_from_fields(&pairs(&[])).unwrap_err();
    assert_eq!(err.message, "couldnt find fields to process");
}

#[test]
fn metadata_decodes_items_and_arrays() {
    let fields = pairs(&[("plain", "hello"), ("list", "[\"a\",\"b\"]")]);
    let out = organize_metadata(&fields).unwrap();
    assert_eq!(out.len(), 2);
    match &out[0].1 {
        ItemOrArray::Item(s) => assert_eq!(s, "hello"),
        _ => panic!("expected an item"),
    }
    match &out[1].1 {
        ItemOrArray::Array(v) => assert_eq!(v, &vec!["a".to_string(), "b".to_string()]),
        _ => panic!("expected an array"),
    }
}

#[test]
fn metadata_splits_labelled_fields() {
    let fields = pairs(&[
        ("fields_labels", "[\"Genres: Action, Drama\",\"Author: Someone\",\"Score: 9\"]"),
        ("labels", "[\"Genres:\",\"Author:\",\"Score:\"]"),
    ]);
    let out = organize_metadata(&fields).unwrap();
    let genres = out.iter().find(|p| p.0 == "Genres").expect("genres entry");
    match &genres.1 {
        ItemOrArray::Array(v) => {
            assert_eq!(v, &vec!["Action".to_string(), "Drama".to_string()])
        }
        _ => panic!("expected an array"),
    }
    let author = out.iter().find(|p| p.0 == "Author").expect("author entry");
    match &author.1 {
        ItemOrArray::Item(s) => assert_eq!(s, "Someone"),
        _ => panic!("expected an item"),
    }
    assert!(out.iter().all(|p| p.0 != "Score"));
    assert!(out.iter().all(|p| p.0 != "fields_labels"));
    assert!(out.iter().all(|p| p.0 != "labels"));
}

#[test]
fn metadata_label_must_prefix_its_text() {
    let fields = pairs(&[
        ("fields_labels", "[\"Unrelated text\"]"),
        ("labels", "[\"Author:\"]"),
    ]);
    let err = organize_metadata(&fields).unwrap_err();
    assert_eq!(err.kind, ErrorKind::Extraction);
}
