use pt_listing::config::{Site, login_url, take_login_url};
use pt_listing::dom::{Element, Node};
use pt_listing::error::ErrorKind;
use pt_listing::torrent::{Promotion, Tags, Torrent, detect_tags};
use pt_listing::user::User;
use pt_listing::utils::{Size, contain_selector};

fn el(tag: &str, attrs: &[(&str, &str)], children: Vec<Node>) -> Element {
    Element {
        tag: tag.to_string(),
        attrs: attrs
            .iter()
            .map(|(k, v)| (k.to_string(), v.to_string()))
            .collect(),
        children,
    }
}

fn elem(tag: &str, attrs: &[(&str, &str)], children: Vec<Node>) -> Node {
    Node::Elem(el(tag, attrs, children))
}

fn txt(s: &str) -> Node {
    Node::Text(s.to_string())
}

/// A well-formed listing row. The first cell is a spacer; categories, title
/// and link follow; two unused cells; then size and the three counters.
fn row(
    class: Option<&str>,
    markers: &[&str],
    id: u64,
    size_cell: Vec<Node>,
    counts: (&str, &str, &str),
) -> Node {
    let attrs: Vec<(&str, &str)> = match class {
        Some(c) => vec![("class", c)],
        None => vec![],
    };
    let link = format!("details.php?id={}", id);
    let mut marker_nodes: Vec<Node> = markers
        .iter()
        .map(|m| elem("span", &[("class", *m)], vec![]))
        .collect();
    let mut children = vec![elem("td", &[], vec![txt("spacer")])];
    children.push(elem(
        "td",
        &[],
        vec![
            elem("a", &[("class", "cat-link")], vec![txt("Movies")]),
            elem("a", &[("class", "secocat-link")], vec![txt("HD")]),
        ],
    ));
    children.push(elem(
        "td",
        &[],
        vec![
            elem(
                "a",
                &[("target", "_self"), ("title", "A Fine Title")],
                vec![txt("A Fine…")],
            ),
            elem(
                "div",
                &[("class", "embedded")],
                vec![elem("a", &[("href", &link)], vec![txt("dl")])],
            ),
        ],
    ));
    children.push(elem("td", &[], vec![]));
    children.push(elem("td", &[], vec![]));
    children.push(elem("td", &[], size_cell));
    children.push(elem("td", &[], vec![txt(counts.0)]));
    children.push(elem("td", &[], vec![txt(counts.1)]));
    children.push(elem("td", &[], vec![txt(counts.2)]));
    children.append(&mut marker_nodes);
    elem("tr", &attrs, children)
}

fn header_row() -> Node {
    elem("tr", &[], vec![elem("td", &[], vec![txt("head")])])
}

fn size_mib(text: &str) -> Vec<Node> {
    vec![txt(text), elem("br", &[], vec![]), txt("MiB")]
}

fn doc_with_rows(rows: Vec<Node>) -> Element {
    let mut body = vec![header_row()];
    body.extend(rows);
    el(
        "html",
        &[],
        vec![
            elem(
                "div",
                &[("id", "info_block")],
                vec![elem("span", &[("class", "nowrap")], vec![txt("Alice")])],
            ),
            elem(
                "table",
                &[("class", "torrents coltable")],
                vec![elem("tbody", &[], body)],
            ),
        ],
    )
}

fn sample_row_elem() -> Element {
    match row(
        Some("free_bg"),
        &["new", "hot"],
        12345,
        size_mib("1.5"),
        ("12", "3", "456"),
    ) {
        Node::Elem(e) => e,
        _ => unreachable!(),
    }
}

#[test]
fn row_extracts_every_field() {
    let t = Torrent::from_element(&sample_row_elem()).unwrap();
    assert_eq!(t.id, 12345);
    assert_eq!(t.title, "A Fine Title");
    assert_eq!(t.class, "Movies");
    assert_eq!(t.sub_class, "HD");
    assert_eq!(t.promotion, Promotion::Free);
    assert_eq!(t.link, "details.php?id=12345");
    assert_eq!(t.size, 1536);
    assert_eq!(t.seeding, 12);
    assert_eq!(t.downloading, 3);
    assert_eq!(t.finished, 456);
    assert!(t.tags.new && t.tags.hot && !t.tags.classic && !t.tags.recommended);
}

#[test]
fn row_without_class_attribute_has_normal_promotion() {
    let r = match row(None, &[], 7, size_mib("1"), ("0", "0", "0")) {
        Node::Elem(e) => e,
        _ => unreachable!(),
    };
    let t = Torrent::from_element(&r).unwrap();
    assert_eq!(t.promotion, Promotion::Normal);
    assert_eq!(t.tags, Tags::empty());
}

#[test]
fn tag_detection_is_idempotent() {
    let r = sample_row_elem();
    let t1 = detect_tags(&r);
    let t2 = detect_tags(&r);
    assert_eq!(t1, t2);
    assert!(t1.new && t1.hot);
}

#[test]
fn row_missing_size_cell_fails_not_found() {
    // a row cut short right before the size cell
    let r = match row(Some("free_bg"), &[], 1, size_mib("1"), ("0", "0", "0")) {
        Node::Elem(mut e) => {
            e.children.truncate(5);
            e
        },
        _ => unreachable!(),
    };
    let e = Torrent::from_element(&r).unwrap_err();
    assert_eq!(e.kind, ErrorKind::NotFound);
    assert_eq!(e.detail, "size not found");
}

#[test]
fn link_without_id_marker_fails_parse() {
    let r = match row(Some(""), &[], 1, size_mib("1"), ("0", "0", "0")) {
        Node::Elem(mut e) => {
            // replace the link cell with one whose href has no id= part
            e.children[2] = elem(
                "td",
                &[],
                vec![
                    elem("a", &[("target", "_self"), ("title", "T")], vec![]),
                    elem(
                        "div",
                        &[("class", "embedded")],
                        vec![elem("a", &[("href", "details.php")], vec![])],
                    ),
                ],
            );
            e
        },
        _ => unreachable!(),
    };
    let e = Torrent::from_element(&r).unwrap_err();
    assert_eq!(e.kind, ErrorKind::Parse);
}

#[test]
fn bad_counter_text_fails_parse() {
    let r = match row(Some(""), &[], 1, size_mib("1"), ("12x", "0", "0")) {
        Node::Elem(e) => e,
        _ => unreachable!(),
    };
    let e = Torrent::from_element(&r).unwrap_err();
    assert_eq!(e.kind, ErrorKind::Parse);
}

#[test]
fn listing_yields_records_in_document_order() {
    let doc = doc_with_rows(vec![
        row(Some("free_bg"), &[], 1, size_mib("1"), ("1", "1", "1")),
        row(None, &["classic"], 2, size_mib("2"), ("2", "2", "2")),
        row(Some("twoup_bg"), &[], 3, size_mib("3"), ("3", "3", "3")),
    ]);
    let ts = Torrent::from_html(&doc).unwrap();
    assert_eq!(ts.len(), 3);
    assert_eq!(ts[0].id, 1);
    assert_eq!(ts[1].id, 2);
    assert_eq!(ts[2].id, 3);
    assert_eq!(ts[1].tags.classic, true);
}

#[test]
fn listing_with_only_header_is_empty_not_error() {
    let doc = doc_with_rows(vec![]);
    let ts = Torrent::from_html(&doc).unwrap();
    assert!(ts.is_empty());
}

#[test]
fn listing_without_container_is_not_found() {
    let doc = el("html", &[], vec![elem("div", &[], vec![])]);
    let e = Torrent::from_html(&doc).unwrap_err();
    assert_eq!(e.kind, ErrorKind::NotFound);
    assert_eq!(e.detail, "Torrents not found");
}

#[test]
fn listing_without_tbody_is_not_found() {
    let doc = el(
        "html",
        &[],
        vec![elem("table", &[("class", "torrents coltable")], vec![])],
    );
    let e = Torrent::from_html(&doc).unwrap_err();
    assert_eq!(e.kind, ErrorKind::NotFound);
    assert_eq!(e.detail, "Tbody not found");
}

#[test]
fn listing_aborts_on_first_bad_row() {
    let doc = doc_with_rows(vec![
        row(None, &[], 1, size_mib("1"), ("1", "1", "1")),
        row(None, &[], 2, vec![txt("bad")], ("2", "2", "2")),
        row(None, &[], 3, size_mib("3"), ("3", "3", "3")),
    ]);
    let e = Torrent::from_html(&doc).unwrap_err();
    assert_eq!(e.kind, ErrorKind::Parse);
}

#[test]
fn rerunning_extraction_reproduces_equal_records() {
    let doc = doc_with_rows(vec![
        row(Some("free_bg"), &["new"], 10, size_mib("1.5"), ("5", "6", "7")),
        row(None, &[], 20, size_mib("2"), ("8", "9", "10")),
    ]);
    let a = Torrent::from_html(&doc).unwrap();
    let b = Torrent::from_html(&doc).unwrap();
    assert_eq!(a, b);
}

#[test]
fn user_identity_extracts_name() {
    let doc = doc_with_rows(vec![]);
    let u = User::from_html(&doc).unwrap();
    assert_eq!(u.name, "Alice");
}

#[test]
fn user_panel_without_name_marker_is_not_found() {
    let doc = el(
        "html",
        &[],
        vec![elem("div", &[("id", "info_block")], vec![txt("bare")])],
    );
    let e = User::from_html(&doc).unwrap_err();
    assert_eq!(e.kind, ErrorKind::NotFound);
    assert_eq!(e.detail, "User name not found");
}

#[test]
fn user_missing_panel_is_not_found() {
    let doc = el("html", &[], vec![]);
    let e = User::from_html(&doc).unwrap_err();
    assert_eq!(e.kind, ErrorKind::NotFound);
    assert_eq!(e.detail, "User not found");
}

#[test]
fn contain_selector_finds_marker() {
    let r = sample_row_elem();
    assert_eq!(contain_selector(".new", &r).unwrap(), true);
    assert_eq!(contain_selector(".classic", &r).unwrap(), false);
}

#[test]
fn contain_selector_respects_class_token_boundaries() {
    let e = el(
        "div",
        &[],
        vec![elem("span", &[("class", "a newish b")], vec![])],
    );
    assert_eq!(contain_selector(".new", &e).unwrap(), false);
    let e2 = el(
        "div",
        &[],
        vec![elem("span", &[("class", "a new b")], vec![])],
    );
    assert_eq!(contain_selector(".new", &e2).unwrap(), true);
}

#[test]
fn contain_selector_malformed_is_config_error() {
    let e = el("div", &[], vec![]);
    assert_eq!(
        contain_selector("[broken", &e).unwrap_err().kind,
        ErrorKind::Config
    );
    assert_eq!(contain_selector("", &e).unwrap_err().kind, ErrorKind::Config);
    assert_eq!(
        contain_selector(".a..b", &e).unwrap_err().kind,
        ErrorKind::Config
    );
}

#[test]
fn contain_selector_by_tag_and_id() {
    let e = el(
        "div",
        &[],
        vec![elem("span", &[("id", "info_block")], vec![])],
    );
    assert_eq!(contain_selector("span", &e).unwrap(), true);
    assert_eq!(contain_selector("#info_block", &e).unwrap(), true);
    assert_eq!(contain_selector("#other", &e).unwrap(), false);
}

#[test]
fn contain_selector_by_attribute_value() {
    let r = sample_row_elem();
    assert_eq!(contain_selector("[target=\"_self\"]", &r).unwrap(), true);
    assert_eq!(contain_selector("[target=\"_blank\"]", &r).unwrap(), false);
    assert_eq!(
        contain_selector("[target=\"_self\"", &r).unwrap_err().kind,
        ErrorKind::Config
    );
}

#[test]
fn tag_names_follow_the_set() {
    let t = Tags {
        new: true,
        hot: false,
        classic: true,
        recommended: false,
    };
    assert_eq!(t.names(), vec!["new", "classic"]);
    assert_eq!(Tags::empty().names(), vec!["none"]);
}

#[test]
fn size_value_converts_both_ways() {
    let s = Size::from(4096u64);
    assert_eq!(s.bytes(), 4096);
    assert_eq!(s, Size(4096));
    let back: u64 = s.into();
    assert_eq!(back, 4096);
}

#[test]
fn login_urls_are_built_from_the_base() {
    let site = Site {
        base_url: "https://example.net".to_string(),
        username: "u".to_string(),
        password: "p".to_string(),
    };
    assert_eq!(login_url(&site), "https://example.net/login.php");
    assert_eq!(take_login_url(&site), "https://example.net/takelogin.php");
}
