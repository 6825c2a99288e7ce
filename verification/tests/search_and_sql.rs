use scrape_core::searchpage::SearchServiceDeserialized;
use scrape_core::sql::save_sql_str;
use scrape_core::sql::year;
use scrape_core::sql::Array;
use scrape_core::sql::IdOrValue;
use scrape_core::sql::Item;
use scrape_core::sql::ItemData;
use scrape_core::sql::ItemOrArray;
use scrape_core::sql::Order;
use scrape_core::sql::OrderKind;
use scrape_core::sql::SearchRequest;

fn config() -> SearchServiceDeserialized {
    SearchServiceDeserialized {
        headers: None,
        url_empty: Some("https://example.com/all?page={page}&offset={offset}".to_string()),
        url: "https://example.com/search?q={query}&page={page}".to_string(),
        selector: ".result a".to_string(),
        label_selector: None,
        type_: None,
        status: None,
        cover: ".result img".to_string(),
        offset: Some(20),
    }
}

#[test]
fn search_url_replaces_query_and_page() {
    let data = config().convert(Vec::new()).unwrap();
    let url = data.build_search_url("one two", 3);
    assert_eq!(url, "https://example.com/search?q=one%20two&page=3");
}

#[test]
fn search_url_uses_the_empty_template_and_offset() {
    let data = config().convert(Vec::new()).unwrap();
    let url = data.build_search_url("", 3);
    assert_eq!(url, "https://example.com/all?page=3&offset=40");
}

#[test]
fn convert_rejects_bad_selectors() {
    let mut c = config();
    c.selector = "[[[".to_string();
    let err = c.convert(Vec::new()).unwrap_err();
    assert_eq!(err.kind, scrape_core::error::ErrorKind::Grammar);
}

const SEARCH_DOC: &str = "<html><body>\
<div class=\"result\"><a href=\"/title/1\">One</a>\
<img data-src=\"https://proxy.example/cache/https://covers.example/1.png\"></div>\
<div class=\"result\"><a href=\"/title/2\">Two</a><img src=\"direct.png\"></div>\
</body></html>";

#[test]
fn search_results_are_extracted_and_covers_unwrapped() {
    let data = config().convert(Vec::new()).unwrap();
    let hits = data.extract_search_results(SEARCH_DOC).unwrap();
    assert_eq!(hits.len(), 2);
    assert_eq!(hits[0].url, "/title/1");
    assert_eq!(hits[0].title, "One");
    assert_eq!(hits[0].cover, "https://covers.example/1.png");
    assert_eq!(hits[1].cover, "direct.png");
    assert!(hits[0].type_.is_none());
    assert!(hits[0].status.is_none());
}

#[test]
fn sql_escapes_string_literals() {
    assert_eq!(save_sql_str("it's 100%_\\"), "it''s 100\\%\\_\\\\");
}

#[test]
fn sql_comparison_flips_under_negation() {
    assert_eq!(year(false, true, true, "5"), ">= 5");
    assert_eq!(year(false, false, false, "5"), "< 5");
    assert_eq!(year(true, true, true, "5"), "< 5");
    assert_eq!(year(true, false, false, "5"), ">= 5");
}

#[test]
fn sql_items_render_their_conditions() {
    let item = Item { not: false, data: ItemData::Id(7) };
    assert_eq!(item.to_sql(), "id = 7");

    let item = Item { not: true, data: ItemData::Id(7) };
    assert_eq!(item.to_sql(), "id != 7");

    let item = Item { not: false, data: ItemData::Title("It's Mine".to_string()) };
    assert_eq!(
        item.to_sql(),
        "EXISTS(SELECT 1 FROM unnest(titles) as element WHERE lower(element) ILIKE '%it''s mine%')"
    );

    let item = Item { not: false, data: ItemData::Year { eq: true, bigger: true, value: 2001 } };
    assert_eq!(item.to_sql(), "year >= 2001");

    let item = Item {
        not: false,
        data: ItemData::Rating { eq: false, bigger: true, rating: 850 },
    };
    assert_eq!(item.to_sql(), "bayesian_rating > 8.5");

    let item = Item { not: false, data: ItemData::Genre(IdOrValue::Value("Action".to_string())) };
    assert_eq!(
        item.to_sql(),
        "(SELECT id FROM genres WHERE lower(name) = 'action') = ANY(genres)"
    );

    let item = Item { not: false, data: ItemData::Licensed(true) };
    assert_eq!(item.to_sql(), "licensed = true");
}

#[test]
fn sql_groups_join_and_parenthesize() {
    let group = Array {
        or: true,
        items: vec![
            ItemOrArray::Item(Item { not: false, data: ItemData::Id(1) }),
            ItemOrArray::Item(Item { not: false, data: ItemData::Id(2) }),
        ],
    };
    assert_eq!(group.to_sql().unwrap(), "(id = 1 or id = 2)");

    let single = Array {
        or: false,
        items: vec![ItemOrArray::Item(Item { not: false, data: ItemData::Id(1) })],
    };
    assert_eq!(single.to_sql().unwrap(), "id = 1");

    let empty = Array { or: false, items: vec![] };
    assert!(empty.to_sql().is_none());
}

#[test]
fn sql_requests_compile_to_one_statement() {
    let request = SearchRequest {
        data: Array {
            or: false,
            items: vec![
                ItemOrArray::Item(Item {
                    not: false,
                    data: ItemData::Completed(true),
                }),
                ItemOrArray::Array(Array {
                    or: true,
                    items: vec![
                        ItemOrArray::Item(Item { not: false, data: ItemData::Id(1) }),
                        ItemOrArray::Item(Item { not: false, data: ItemData::Id(2) }),
                    ],
                }),
            ],
        },
        order: Order { desc: false, kind: OrderKind::Id },
    };
    assert_eq!(
        request.to_sql(),
        "SELECT * FROM info WHERE (completed = true and (id = 1 or id = 2));"
    );

    let empty = SearchRequest {
        data: Array { or: false, items: vec![] },
        order: Order { desc: true, kind: OrderKind::Title },
    };
    assert_eq!(empty.to_sql(), "SELECT * FROM info;");
}
