use svelte_path_finder::{
    build_tree, parse_complex, process_dir, ComplexWildcard, Entry, Item, Segment, SegmentType,
    SveltePathFinder,
};

fn leaf(segment: Segment, login: bool) -> Item {
    Item { segment, children: vec![], terminating: true, requires_login: login }
}

fn node(segment: Segment, children: Vec<Item>) -> Item {
    Item { segment, children, terminating: false, requires_login: false }
}

fn root(children: Vec<Item>) -> SveltePathFinder {
    SveltePathFinder { children, terminating: false, requires_login: false }
}

fn lit(s: &str) -> Segment {
    Segment::Static(s.to_string())
}

fn file(name: &str) -> Entry {
    Entry::File(name.to_string())
}

fn dir(name: &str, entries: Vec<Entry>) -> Entry {
    Entry::Dir(name.to_string(), entries)
}

#[test]
fn static_route_matches_only_its_literal() {
    let tree = root(vec![leaf(lit("about"), false)]);
    assert_eq!(tree.find("/about"), Some(false));
    assert_eq!(tree.find("about"), Some(false));
    assert_eq!(tree.find("/abou"), None);
    assert_eq!(tree.find("/aboutx"), None);
    assert_eq!(tree.find("/"), None);
    assert_eq!(tree.find("/about/x"), None);
}

#[test]
fn static_route_compares_decoded_segment() {
    let tree = root(vec![leaf(lit("A b"), true)]);
    assert_eq!(tree.find("/%41%20b"), Some(true));
    assert_eq!(tree.find("/A%20b"), Some(true));
    assert_eq!(tree.find("/A b"), Some(true));
    assert_eq!(tree.find("/%41%2"), None);
}

#[test]
fn percent_escape_decodes_to_slash() {
    let tree = root(vec![leaf(lit("/x"), false)]);
    assert_eq!(tree.find("/%2Fx"), Some(false));
    assert_eq!(tree.find("/%2fx"), Some(false));
    let raw = root(vec![leaf(lit("%2Fx"), false)]);
    assert_eq!(raw.find("/%2Fx"), None);
}

#[test]
fn malformed_escapes_pass_through() {
    let tree = root(vec![leaf(lit("%zz%4"), false)]);
    assert_eq!(tree.find("/%zz%4"), Some(false));
    let pct = root(vec![leaf(lit("100%"), false)]);
    assert_eq!(pct.find("/100%"), Some(false));
}

#[test]
fn wildcard_matches_any_single_segment() {
    let tree = root(vec![leaf(Segment::Wildcard, false)]);
    assert_eq!(tree.find("/anything"), Some(false));
    assert_eq!(tree.find("/"), Some(false));
    assert_eq!(tree.find("/%zz"), Some(false));
    assert_eq!(tree.find("/a/b"), None);
}

#[test]
fn wildcard_matches_empty_inner_segment() {
    let tree = root(vec![node(lit("a"), vec![node(Segment::Wildcard, vec![leaf(lit("b"), false)])])]);
    assert_eq!(tree.find("/a//b"), Some(false));
    assert_eq!(tree.find("/a/x/b"), Some(false));
    assert_eq!(tree.find("/a/b"), None);
}

#[test]
fn optional_wildcard_matches_zero_or_one_segment() {
    let tree = root(vec![node(lit("parent"), vec![leaf(Segment::OptionalWildcard, false)])]);
    assert_eq!(tree.find("/parent"), Some(false));
    assert_eq!(tree.find("/parent/x"), Some(false));
    assert_eq!(tree.find("/parent/x/y"), None);
}

#[test]
fn optional_wildcard_prefers_not_consuming() {
    let optional = Item {
        segment: Segment::OptionalWildcard,
        children: vec![leaf(lit("x"), true)],
        terminating: true,
        requires_login: false,
    };
    let tree = root(vec![node(lit("parent"), vec![optional])]);
    assert_eq!(tree.find("/parent/x"), Some(true));
    assert_eq!(tree.find("/parent/y"), Some(false));
    assert_eq!(tree.find("/parent/y/x"), Some(true));
}

#[test]
fn repeated_wildcard_matches_any_tail() {
    let tree = root(vec![node(lit("base"), vec![leaf(Segment::RepeatedWildcard, true)])]);
    assert_eq!(tree.find("/base"), Some(true));
    assert_eq!(tree.find("/base/a"), Some(true));
    assert_eq!(tree.find("/base/a/b"), Some(true));
    assert_eq!(tree.find("/base/a/b/c/d"), Some(true));
    assert_eq!(tree.find("/other"), None);
}

#[test]
fn repeated_wildcard_backtracks_to_child() {
    let repeated = Item {
        segment: Segment::RepeatedWildcard,
        children: vec![leaf(lit("edit"), true)],
        terminating: false,
        requires_login: false,
    };
    let tree = root(vec![node(lit("docs"), vec![repeated])]);
    assert_eq!(tree.find("/docs/edit"), Some(true));
    assert_eq!(tree.find("/docs/a/b/edit"), Some(true));
    assert_eq!(tree.find("/docs/a/b"), None);
}

#[test]
fn children_are_tried_in_order() {
    let tree = root(vec![leaf(Segment::Wildcard, true), leaf(lit("x"), false)]);
    assert_eq!(tree.find("/x"), Some(true));
    let tree = root(vec![leaf(lit("x"), false), leaf(Segment::Wildcard, true)]);
    assert_eq!(tree.find("/x"), Some(false));
    assert_eq!(tree.find("/y"), Some(true));
}

#[test]
fn root_terminating_matches_empty_path() {
    let tree = SveltePathFinder { children: vec![], terminating: true, requires_login: true };
    assert_eq!(tree.find("/"), Some(true));
    assert_eq!(tree.find(""), Some(true));
    assert_eq!(tree.find("/a"), None);
}

#[test]
fn find_is_repeatable() {
    let tree = root(vec![node(lit("a"), vec![leaf(Segment::Wildcard, true)])]);
    let first = tree.find("/a/b");
    for _ in 0..5 {
        assert_eq!(tree.find("/a/b"), first);
    }
    assert_eq!(first, Some(true));
}

#[test]
fn complex_wildcard_parse_and_match() {
    let parts = parse_complex("pre[id]post");
    assert_eq!(parts.len(), 3);
    assert!(matches!(&parts[0], ComplexWildcard::Static(s) if s == "pre"));
    assert!(matches!(&parts[1], ComplexWildcard::Wildcard));
    assert!(matches!(&parts[2], ComplexWildcard::Static(s) if s == "post"));
    assert!(ComplexWildcard::matches(&parts, "preXpost"));
    assert!(ComplexWildcard::matches(&parts, "prepost"));
    assert!(!ComplexWildcard::matches(&parts, "pre123postXYZ"));
    assert!(ComplexWildcard::matches(&parts, "pre123post"));
    assert!(!ComplexWildcard::matches(&parts, "prXpost"));
}

#[test]
fn complex_wildcard_parse_edges() {
    let parts = parse_complex("[a]-[b]");
    assert_eq!(parts.len(), 3);
    assert!(matches!(&parts[0], ComplexWildcard::Wildcard));
    assert!(matches!(&parts[1], ComplexWildcard::Static(s) if s == "-"));
    assert!(matches!(&parts[2], ComplexWildcard::Wildcard));
    let nested = parse_complex("x[[a]]y");
    assert_eq!(nested.len(), 3);
    assert!(matches!(&nested[1], ComplexWildcard::Wildcard));
    let open = parse_complex("a[b]c[d");
    assert_eq!(open.len(), 3);
    assert!(matches!(&open[2], ComplexWildcard::Static(s) if s == "c[d"));
}

#[test]
fn complex_wildcard_trailing_parameter_takes_rest() {
    let parts = vec![ComplexWildcard::Static("v".to_string()), ComplexWildcard::Wildcard];
    assert!(ComplexWildcard::matches(&parts, "v"));
    assert!(ComplexWildcard::matches(&parts, "v1.2/3"));
    assert!(!ComplexWildcard::matches(&parts, "x1"));
    assert!(ComplexWildcard::matches(&[], ""));
    assert!(!ComplexWildcard::matches(&[], "a"));
}

#[test]
fn complex_segment_in_tree_decodes_first() {
    let tree = root(vec![leaf(Segment::ComplexWildcard(parse_complex("a[x]-b")), false)]);
    assert_eq!(tree.find("/a1-b"), Some(false));
    assert_eq!(tree.find("/a1%2Db"), Some(false));
    assert_eq!(tree.find("/a1_b"), None);
}

#[test]
fn segment_classification() {
    assert!(matches!(SegmentType::from_str("(group)"), SegmentType::Ignore));
    assert!(matches!(SegmentType::from_str("[[lang]]"), SegmentType::OptionalWildcard));
    assert!(matches!(SegmentType::from_str("[...rest]"), SegmentType::RepeatedWildcard));
    assert!(matches!(SegmentType::from_str("[id]"), SegmentType::Wildcard));
    assert!(matches!(SegmentType::from_str("a[id]b"), SegmentType::ComplexWildcard));
    assert!(matches!(SegmentType::from_str("about"), SegmentType::Static));
    assert!(matches!(SegmentType::from_str("a]b[c"), SegmentType::Static));
    assert!(matches!(SegmentType::from_str("(x"), SegmentType::Static));
}

#[test]
fn route_marker_files() {
    let t = |name: &str| process_dir(&vec![file(name)], None, false).map(|r| r.1);
    assert_eq!(t("+page.svelte"), Some(true));
    assert_eq!(t("+page@.svelte"), Some(true));
    assert_eq!(t("+page@layout.svelte"), Some(true));
    assert_eq!(t("x+page.svelte.bak"), Some(true));
    assert_eq!(t("+page.ts"), None);
    assert_eq!(t("+layout.svelte"), None);
    assert_eq!(t("page.svelte"), None);
}

#[test]
fn build_tree_from_listing() {
    let entries = vec![
        file("+page.svelte"),
        dir("about", vec![file("+page.svelte")]),
        dir("blog", vec![dir("[slug]", vec![file("+page.svelte")])]),
        dir("(app)", vec![dir("settings", vec![file("+page.svelte")])]),
        dir("empty", vec![file("README.md"), dir("deeper", vec![])]),
    ];
    let tree = build_tree(&entries);
    assert!(tree.terminating);
    assert!(!tree.requires_login);
    assert_eq!(tree.children.len(), 3);
    assert!(matches!(&tree.children[0].segment, Segment::Static(s) if s == "about"));
    assert!(matches!(&tree.children[2].segment, Segment::Static(s) if s == "settings"));
    let blog = &tree.children[1];
    assert!(!blog.terminating);
    assert!(matches!(blog.children[0].segment, Segment::Wildcard));
    assert_eq!(tree.find("/"), Some(false));
    assert_eq!(tree.find("/about"), Some(false));
    assert_eq!(tree.find("/blog/hello"), Some(false));
    assert_eq!(tree.find("/blog"), Some(false));
    assert_eq!(tree.find("/blog/a/b"), None);
    assert_eq!(tree.find("/settings"), Some(false));
    assert_eq!(tree.find("/empty"), None);
}

#[test]
fn group_terminating_flag_moves_up() {
    let entries = vec![dir("shop", vec![dir("(list)", vec![file("+page.svelte")])])];
    let tree = build_tree(&entries);
    assert_eq!(tree.children.len(), 1);
    assert!(tree.children[0].terminating);
    assert_eq!(tree.find("/shop"), Some(false));
}

#[test]
fn login_flag_propagates_and_resets() {
    let entries = vec![
        dir("(login)", vec![
            dir("account", vec![
                file("+page.svelte"),
                dir("(no_login)", vec![dir("help", vec![file("+page.svelte")])]),
                dir("[id]", vec![file("+page.svelte")]),
            ]),
        ]),
        dir("public", vec![file("+page.svelte")]),
    ];
    let tree = build_tree(&entries);
    assert_eq!(tree.find("/account"), Some(true));
    assert_eq!(tree.find("/account/7"), Some(true));
    assert_eq!(tree.find("/account/help"), Some(false));
    assert_eq!(tree.find("/public"), Some(false));
    assert!(tree.children[0].requires_login);
    assert!(!tree.children[1].requires_login);
}

#[test]
fn unmarked_listing_builds_empty_tree() {
    let entries = vec![
        file("README.md"),
        dir("a", vec![dir("[b]", vec![file("+layout.svelte")])]),
        dir("(login)", vec![]),
    ];
    assert!(process_dir(&entries, None, false).is_none());
    let tree = build_tree(&entries);
    assert!(tree.children.is_empty());
    assert!(!tree.terminating);
    assert_eq!(tree.find("/"), None);
    assert_eq!(tree.find("/a/b"), None);
    assert_eq!(tree.find("/anything"), None);
}

#[test]
fn process_dir_for_named_directories() {
    let inner = vec![file("+page.svelte")];
    let (items, t) = process_dir(&inner, Some("[[lang]]"), true).unwrap();
    assert!(!t);
    assert_eq!(items.len(), 1);
    assert!(matches!(items[0].segment, Segment::OptionalWildcard));
    assert!(items[0].terminating);
    assert!(items[0].requires_login);
    let (items, t) = process_dir(&inner, Some("(group)"), false).unwrap();
    assert!(t);
    assert!(items.is_empty());
    let (items, _) = process_dir(&inner, Some("[...path]"), false).unwrap();
    assert!(matches!(items[0].segment, Segment::RepeatedWildcard));
    let (items, _) = process_dir(&inner, Some("v[n]"), false).unwrap();
    assert!(matches!(&items[0].segment, Segment::ComplexWildcard(p) if p.len() == 2));
}

#[test]
fn pattern_string_rendering() {
    let tree = root(vec![
        node(lit("a"), vec![leaf(Segment::Wildcard, true)]),
        Item {
            segment: lit("b"),
            children: vec![leaf(Segment::OptionalWildcard, false), leaf(Segment::RepeatedWildcard, false)],
            terminating: true,
            requires_login: true,
        },
        leaf(Segment::ComplexWildcard(parse_complex("x[id]y")), false),
    ]);
    assert_eq!(
        tree.to_pattern_string(),
        "/ { /a/* (login), /b (terminating, login) { (/*), /** }, /x*y }"
    );
    let single = root(vec![leaf(lit("only"), false)]);
    assert_eq!(single.to_pattern_string(), "//only");
    assert_eq!(ComplexWildcard::render(&parse_complex("[a]-[b]")), "*-*");
    assert_eq!(Item::render_children(&vec![], false, true), " (login)");
    assert_eq!(Segment::OptionalWildcard.to_pattern_string(), "(/*)");
    assert_eq!(lit("p").to_pattern_string(), "/p");
}
