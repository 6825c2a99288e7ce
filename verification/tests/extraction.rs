use scrape_core::clean_text;
use scrape_core::error::ErrorKind;
use scrape_core::field::Field;
use scrape_core::field::Prefix;
use scrape_core::field::Target;
use scrape_core::selector::parse_selector;
use scrape_core::selector::ChildRelation;
use scrape_core::selector::NodeKind;
use scrape_core::service::Service;
use scrape_core::register;

#[test]
fn clean_text_strips_newlines_and_spaces() {
    assert_eq!(clean_text("\n  hello  \n".to_string()), "hello");
}

#[test]
fn clean_text_is_idempotent_on_samples() {
    for s in ["", " ", "\n \n", "  a  b  ", "\nx", "x\n", "\t x \t"] {
        let once = clean_text(s.to_string());
        let twice = clean_text(once.clone());
        assert_eq!(once, twice);
    }
}

#[test]
fn clean_text_keeps_other_whitespace() {
    assert_eq!(clean_text("\t a \t".to_string()), "\t a \t");
}

#[test]
fn selector_without_delimiter_is_single_node() {
    let node = parse_selector("div").unwrap();
    assert_eq!(node.kind, NodeKind::TagName);
    assert_eq!(node.name, "div");
    assert!(matches!(node.child, ChildRelation::End));

    let node = parse_selector(".card").unwrap();
    assert_eq!(node.kind, NodeKind::Class);
    assert_eq!(node.name, "card");
    assert!(matches!(node.child, ChildRelation::End));

    let node = parse_selector("#main").unwrap();
    assert_eq!(node.kind, NodeKind::Id);
    assert_eq!(node.name, "main");
    assert!(matches!(node.child, ChildRelation::End));
}

#[test]
fn selector_descendants_and_refinements() {
    let node = parse_selector(".card img").unwrap();
    assert_eq!(node.kind, NodeKind::Class);
    assert_eq!(node.name, "card");
    match node.child {
        ChildRelation::Descendant(child) => {
            assert_eq!(child.kind, NodeKind::TagName);
            assert_eq!(child.name, "img");
            assert!(matches!(child.child, ChildRelation::End));
        }
        _ => panic!("expected a descendant"),
    }

    let node = parse_selector("#id ... .nested").unwrap();
    assert_eq!(node.kind, NodeKind::Id);
    match node.child {
        ChildRelation::BroadDescendant(child) => {
            assert_eq!(child.kind, NodeKind::Class);
            assert_eq!(child.name, "nested");
        }
        _ => panic!("expected a broad descendant"),
    }

    let node = parse_selector("a.link").unwrap();
    assert_eq!(node.kind, NodeKind::TagName);
    assert_eq!(node.name, "a");
    match node.child {
        ChildRelation::Same(child) => {
            assert_eq!(child.kind, NodeKind::Class);
            assert_eq!(child.name, "link");
        }
        _ => panic!("expected a same-element refinement"),
    }
}

#[test]
fn selector_round_trip_reconstructs_the_chain() {
    for text in ["div", ".card img", "#id ... .nested", "a.link#x", ".a .b .c"] {
        let node = parse_selector(text).unwrap();
        let described = node.describe();
        assert_eq!(described, text);
        let again = parse_selector(&described).unwrap();
        assert_eq!(chain_shape(&again), chain_shape(&node));
    }
}

fn chain_shape(node: &scrape_core::selector::SelectorNode) -> Vec<(NodeKind, String, u8)> {
    let mut out = Vec::new();
    let mut cur = node;
    loop {
        let (tag, next): (u8, Option<&scrape_core::selector::SelectorNode>) = match &cur.child {
            ChildRelation::End => (0, None),
            ChildRelation::Same(c) => (1, Some(c)),
            ChildRelation::Descendant(c) => (2, Some(c)),
            ChildRelation::BroadDescendant(c) => (3, Some(c)),
        };
        out.push((cur.kind, cur.name.clone(), tag));
        match next {
            Some(c) => cur = c,
            None => return out,
        }
    }
}

#[test]
fn selector_rejects_empty_and_trailing_space() {
    assert!(parse_selector("").is_err());
    let err = parse_selector("div ").unwrap_err();
    assert_eq!(err.kind, ErrorKind::Grammar);
}

#[test]
fn field_parse_text_target() {
    let fields = Field::parse("title[text] .card .title").unwrap();
    assert_eq!(fields.len(), 1);
    assert_eq!(fields[0].name(), "title");
    assert_eq!(fields[0].target(), &Target::Text(Prefix::First));
}

#[test]
fn field_parse_attr_all_target() {
    let fields = Field::parse("imgs[@src] .gallery img").unwrap();
    assert_eq!(fields.len(), 1);
    assert_eq!(fields[0].name(), "imgs");
    assert_eq!(fields[0].target(), &Target::Attr(Prefix::All, "src".to_string()));
}

#[test]
fn field_parse_rejects_unknown_target() {
    let err = Field::parse("bad[notareal] .x").unwrap_err();
    assert_eq!(err.kind, ErrorKind::Configuration);
}

#[test]
fn field_parse_skips_commentary_lines() {
    let text = "just a comment\n\ntitle[text] .title\nanother comment without brackets";
    let fields = Field::parse(text).unwrap();
    assert_eq!(fields.len(), 1);
    assert_eq!(fields[0].name(), "title");
}

#[test]
fn field_parse_more_targets() {
    let fields =
        Field::parse("a[html] .x\nb[strip_text] .y\nc[href] a\nd[attr=data-id] .z\ne[2text] li")
            .unwrap();
    assert_eq!(fields.len(), 5);
    assert_eq!(fields[0].target(), &Target::Html(Prefix::First));
    assert_eq!(fields[1].target(), &Target::StripText(Prefix::First));
    assert_eq!(fields[2].target(), &Target::Attr(Prefix::First, "href".to_string()));
    assert_eq!(fields[3].target(), &Target::Attr(Prefix::First, "data-id".to_string()));
    assert_eq!(fields[4].target(), &Target::Text(Prefix::Num(2)));
}

#[test]
fn field_parse_is_case_insensitive_on_targets() {
    let fields = Field::parse("t[TEXT] .x\nu[Attr=HREF] a").unwrap();
    assert_eq!(fields[0].target(), &Target::Text(Prefix::First));
    assert_eq!(fields[1].target(), &Target::Attr(Prefix::First, "href".to_string()));
}

#[test]
fn field_parse_rejects_bad_selector() {
    let err = Field::parse("t[text] [[[").unwrap_err();
    assert_eq!(err.kind, ErrorKind::Grammar);
}

const DOC: &str = "<html><body>\
<div class=\"card\"><span class=\"title\">\n  First  \n</span><img src=\"a.png\"></div>\
<div class=\"card\"><span class=\"title\">Second</span><img></div>\
</body></html>";

#[test]
fn evaluate_first_text() {
    let fields = Field::parse("title[text] .card .title").unwrap();
    let got = fields[0].get(DOC).unwrap().unwrap();
    assert_eq!(got, "\n  First  \n");
}

#[test]
fn evaluate_strip_text() {
    let fields = Field::parse("title[strip_text] .card .title").unwrap();
    let got = fields[0].get(DOC).unwrap().unwrap();
    assert_eq!(got, "First");
}

#[test]
fn evaluate_all_encodes_a_json_array() {
    let fields = Field::parse("titles[@strip_text] .card .title").unwrap();
    let got = fields[0].get(DOC).unwrap().unwrap();
    assert_eq!(got, "[\"First\",\"Second\"]");
}

#[test]
fn evaluate_attr_substitutes_empty_for_missing() {
    let fields = Field::parse("imgs[@src] .card img").unwrap();
    let got = fields[0].get(DOC).unwrap().unwrap();
    assert_eq!(got, "[\"a.png\",\"\"]");
}

#[test]
fn evaluate_missing_node_is_absent_not_an_error() {
    let fields = Field::parse("missing[text] .nothing-here").unwrap();
    assert!(fields[0].get(DOC).unwrap().is_none());
}

#[test]
fn evaluate_num_with_too_few_matches_is_an_extraction_error() {
    let fields = Field::parse("three[3text] .card .title").unwrap();
    let err = fields[0].get(DOC).unwrap_err();
    assert_eq!(err.kind, ErrorKind::Extraction);
}

#[test]
fn evaluate_num_within_matches_truncates() {
    let fields = Field::parse("one[1strip_text] .card .title").unwrap();
    let got = fields[0].get(DOC).unwrap().unwrap();
    assert_eq!(got, "[\"First\"]");
}

#[test]
fn evaluate_html_serializes_markup() {
    let fields = Field::parse("m[html] .card img").unwrap();
    let got = fields[0].get(DOC).unwrap().unwrap();
    assert_eq!(got, "<img src=\"a.png\">");
}

#[test]
fn service_process_collects_present_fields() {
    let fields =
        Field::parse("title[strip_text] .card .title\nmissing[text] .nope\nimgs[@src] img")
            .unwrap();
    let service = Service::new(fields, Vec::new());
    let pairs = service.process(DOC).unwrap();
    assert_eq!(pairs.len(), 2);
    assert_eq!(pairs[0].0, "title");
    assert_eq!(pairs[0].1, "First");
    assert_eq!(pairs[1].0, "imgs");
    assert_eq!(pairs[1].1, "[\"a.png\",\"\"]");
}

#[test]
fn register_lists_no_builtin_sites() {
    assert!(register().is_empty());
}
