use vstd::prelude::*;
use crate::classify::{
    chars_of, classify, complex_parts, parse_complex, starts_with_seq, SegmentType,
};
use crate::route::{
    finder_find, items_view, item_view, Item, ItemView, Segment, SegmentView, SveltePathFinder,
};

verus! {

/// One entry of a route directory: a file, or a directory with its entries
/// in listing order.
pub enum Entry {
    File(String),
    Dir(String, Vec<Entry>),
}

/// The group name that makes every route below it require a login.
pub open spec fn login_name() -> Seq<char> {
    seq!['(', 'l', 'o', 'g', 'i', 'n', ')']
}

/// The group name that makes every route below it need no login.
pub open spec fn no_login_name() -> Seq<char> {
    seq!['(', 'n', 'o', '_', 'l', 'o', 'g', 'i', 'n', ')']
}

/// The login flag below a directory named `name`, given the flag above it.
pub open spec fn login_below(name: Seq<char>, inherited: bool) -> bool {
    if name == login_name() {
        true
    } else if name == no_login_name() {
        false
    } else {
        inherited
    }
}

/// Whether `s` holds `.svelte` at position `k`.
pub open spec fn svelte_at(s: Seq<char>, k: int) -> bool {
    0 <= k && k + 7 <= s.len() && s.subrange(k, k + 7) == seq!['.', 's', 'v', 'e', 'l', 't', 'e']
}

/// Whether a file name contains a match of `\+page(|@.*)\.svelte`: `+page`,
/// then either `.svelte` at once, or `@`, a run of characters other than a
/// line feed, and `.svelte`.
pub open spec fn is_page_file(s: Seq<char>) -> bool {
    exists|i: int|
        0 <= i && i + 5 <= s.len() && #[trigger] s.subrange(i, i + 5) == seq!['+', 'p', 'a', 'g', 'e']
            && (svelte_at(s, i + 5) || (i + 5 < s.len() && s[i + 5] == '@' && exists|k: int|
            i + 6 <= k && #[trigger] svelte_at(s, k) && forall|j: int| i + 6 <= j < k ==> s[j] != '\n'))
}

/// Relies on regex::Regex::new and Regex::is_match: whether the pattern
/// `\+page(|@.*)\.svelte` (`.` being any character but a line feed) matches
/// somewhere in `name`.
#[verifier::external_body]
fn page_file_regex_match(name: &str) -> (r: bool)
    ensures
        r == is_page_file(name@),
{
    regex::Regex::new(r"\+page(|@.*)\.svelte").unwrap().is_match(name)
}

/// The node kind that a directory name that is not a group stands for.
pub open spec fn named_segment(name: Seq<char>) -> SegmentView {
    match classify(name) {
        SegmentType::OptionalWildcard => SegmentView::OptionalWildcard,
        SegmentType::RepeatedWildcard => SegmentView::RepeatedWildcard,
        SegmentType::Wildcard => SegmentView::Wildcard,
        SegmentType::ComplexWildcard => SegmentView::ComplexWildcard(complex_parts(name)),
        _ => SegmentView::Static(name),
    }
}

/// The nodes gathered from `entries[0..n]` under the login flag `login`, and
/// whether a route ends at the directory that holds them.
pub open spec fn gather(entries: Seq<Entry>, n: int, login: bool) -> (Seq<ItemView>, bool)
    decreases entries, 1int, if n > 0 { n } else { 0 },
{
    if n <= 0 || n > entries.len() {
        (Seq::empty(), false)
    } else {
        let prev = gather(entries, n - 1, login);
        match entries[n - 1] {
            Entry::File(name) => (prev.0, prev.1 || is_page_file(name@)),
            Entry::Dir(name, sub) => match dir_result(Some(name@), sub@, login_below(name@, login)) {
                Some(r) => (prev.0 + r.0, prev.1 || r.1),
                None => prev,
            },
        }
    }
}

/// What a directory named `name` (the root if `None`) holding `entries`
/// contributes to its parent: nothing if no route ends in it or below it; the
/// gathered nodes as they are for the root and for a group; otherwise one node
/// holding them.
pub open spec fn dir_result(name: Option<Seq<char>>, entries: Seq<Entry>, login: bool) -> Option<
    (Seq<ItemView>, bool),
>
    decreases entries, 2int, 0int,
{
    let g = gather(entries, entries.len() as int, login);
    if !g.1 && g.0.len() == 0 {
        None
    } else {
        match name {
            None => Some(g),
            Some(n) => if classify(n) is Ignore {
                Some(g)
            } else {
                Some(
                    (
                        seq![
                            ItemView {
                                segment: named_segment(n),
                                children: g.0,
                                terminating: g.1,
                                requires_login: login,
                            },
                        ],
                        false,
                    ),
                )
            },
        }
    }
}

/// Whether `name` is exactly the characters of `word`.
fn is_named(name: &Vec<char>, word: &Vec<char>) -> (r: bool)
    ensures
        r == (name@ == word@),
{
    assert(name@.subrange(0, name@.len() as int) =~= name@);
    name.len() == word.len() && starts_with_seq(name, word)
}

/// The login flag below a directory named `name`, given the flag above it.
fn login_for(name: &str, inherited: bool) -> (r: bool)
    ensures
        r == login_below(name@, inherited),
{
    let chars = chars_of(name);
    let login = vec!['(', 'l', 'o', 'g', 'i', 'n', ')'];
    let no_login = vec!['(', 'n', 'o', '_', 'l', 'o', 'g', 'i', 'n', ')'];
    assert(login@ =~= login_name());
    assert(no_login@ =~= no_login_name());
    if is_named(&chars, &login) {
        true
    } else if is_named(&chars, &no_login) {
        false
    } else {
        inherited
    }
}

/// The node for a directory named `name` that is not a group.
fn make_item(name: &str, kind: SegmentType, children: Vec<Item>, terminating: bool, requires_login: bool) -> (r: Item)
    requires
        kind == classify(name@),
        !(kind is Ignore),
    ensures
        item_view(r) == (ItemView {
            segment: named_segment(name@),
            children: items_view(children@),
            terminating,
            requires_login,
        }),
{
    let segment = match kind {
        SegmentType::OptionalWildcard => Segment::OptionalWildcard,
        SegmentType::RepeatedWildcard => Segment::RepeatedWildcard,
        SegmentType::Wildcard => Segment::Wildcard,
        SegmentType::ComplexWildcard => Segment::ComplexWildcard(parse_complex(name)),
        _ => Segment::Static(name.to_owned()),
    };
    let r = Item { segment, children, terminating, requires_login };
    assert(item_view(r).children =~= items_view(children@));
    r
}

/// Builds what a directory named `segment` (the root if `None`) that holds
/// `entries` contributes to its parent, under the login flag
/// `requires_login`: `None` if no route ends in it or below it; for the root
/// and for a group, the nodes gathered from its entries and whether a route
/// ends there; otherwise one node holding them, and `false`.
pub fn process_dir(entries: &Vec<Entry>, segment: Option<&str>, requires_login: bool) -> (r: Option<(Vec<Item>, bool)>)
    ensures
        dir_result(
            match segment {
                Some(s) => Some(s@),
                None => None,
            },
            entries@,
            requires_login,
        ) == match r {
            Some(x) => Some((items_view(x.0@), x.1)),
            None => None,
        },
    decreases entries@,
{
    let mut items: Vec<Item> = Vec::new();
    let mut terminating = false;
    let mut i: usize = 0;
    while i < entries.len()
        invariant
            i <= entries@.len(),
            gather(entries@, i as int, requires_login) == (items_view(items@), terminating),
        decreases entries@.len() - i,
    {
        let ghost before = items_view(items@);
        match &entries[i] {
            Entry::File(name) => {
                if page_file_regex_match(name.as_str()) {
                    terminating = true;
                }
            },
            Entry::Dir(name, sub) => {
                let login = login_for(name.as_str(), requires_login);
                match process_dir(sub, Some(name.as_str()), login) {
                    Some((new_items, t)) => {
                        let mut new_items = new_items;
                        let ghost added = items_view(new_items@);
                        items.append(&mut new_items);
                        assert(items_view(items@) =~= before + added);
                        if t {
                            terminating = true;
                        }
                    },
                    None => {},
                }
            },
        }
        i += 1;
    }
    if !terminating && items.len() == 0 {
        return None;
    }
    match segment {
        None => Some((items, terminating)),
        Some(name) => {
            let kind = SegmentType::from_str(name);
            if let SegmentType::Ignore = kind {
                return Some((items, terminating));
            }
            let item = make_item(name, kind, items, terminating, requires_login);
            let out = vec![item];
            assert(items_view(out@) =~= seq![item_view(item)]);
            Some((out, false))
        },
    }
}

/// The route tree built from the entries of the routes directory: empty when
/// no route ends anywhere in it.
pub fn build_tree(entries: &Vec<Entry>) -> (r: SveltePathFinder)
    ensures
        items_view(r.children@) == gather(entries@, entries@.len() as int, false).0,
        r.terminating == gather(entries@, entries@.len() as int, false).1,
        !r.requires_login,
{
    match process_dir(entries, None, false) {
        Some((children, terminating)) => SveltePathFinder { children, terminating, requires_login: false },
        None => {
            let r = SveltePathFinder { children: Vec::new(), terminating: false, requires_login: false };
            assert(items_view(r.children@) =~= Seq::<ItemView>::empty());
            r
        },
    }
}

/// The nodes that a directory contributes to its parent; none if it is
/// dropped.
pub open spec fn contributed(name: Option<Seq<char>>, entries: Seq<Entry>, login: bool) -> Seq<ItemView> {
    match dir_result(name, entries, login) {
        Some(r) => r.0,
        None => Seq::empty(),
    }
}

/// Whether every node of `v`, and every node below them, has the login flag
/// `b`.
pub open spec fn all_flagged(v: Seq<ItemView>, b: bool) -> bool
    decreases v,
{
    forall|k: int|
        0 <= k < v.len() ==> (#[trigger] v[k]).requires_login == b && all_flagged(v[k].children, b)
}

/// Whether no directory among `entries[0..n]`, or below them, is named
/// `name`.
pub open spec fn no_dir_named(entries: Seq<Entry>, n: int, name: Seq<char>) -> bool
    decreases entries, if n > 0 { n } else { 0 },
{
    if n <= 0 || n > entries.len() {
        true
    } else {
        no_dir_named(entries, n - 1, name) && match entries[n - 1] {
            Entry::File(_) => true,
            Entry::Dir(d, sub) => d@ != name && no_dir_named(sub@, sub@.len() as int, name),
        }
    }
}

/// The group name that sets the login flag to the opposite of `b`.
pub open spec fn override_against(b: bool) -> Seq<char> {
    if b {
        no_login_name()
    } else {
        login_name()
    }
}

proof fn lemma_flagged_concat(a: Seq<ItemView>, c: Seq<ItemView>, b: bool)
    requires
        all_flagged(a, b),
        all_flagged(c, b),
    ensures
        all_flagged(a + c, b),
{
    let v = a + c;
    assert forall|k: int| 0 <= k < v.len() implies (#[trigger] v[k]).requires_login == b && all_flagged(
        v[k].children,
        b,
    ) by {
        if k < a.len() {
            assert(v[k] == a[k]);
        } else {
            assert(v[k] == c[k - a.len()]);
        }
    }
}

proof fn lemma_gather_flagged(entries: Seq<Entry>, n: int, b: bool)
    requires
        no_dir_named(entries, n, override_against(b)),
    ensures
        all_flagged(gather(entries, n, b).0, b),
    decreases entries, 1int, if n > 0 { n } else { 0 },
{
    if n <= 0 || n > entries.len() {
        assert(all_flagged(Seq::<ItemView>::empty(), b));
    } else {
        lemma_gather_flagged(entries, n - 1, b);
        match entries[n - 1] {
            Entry::File(_) => {},
            Entry::Dir(name, sub) => {
                assert(login_below(name@, b) == b);
                lemma_dir_flagged(name@, sub@, b);
                if let Some(r) = dir_result(Some(name@), sub@, b) {
                    lemma_flagged_concat(gather(entries, n - 1, b).0, r.0, b);
                }
            },
        }
    }
}

proof fn lemma_dir_flagged(name: Seq<char>, entries: Seq<Entry>, b: bool)
    requires
        no_dir_named(entries, entries.len() as int, override_against(b)),
    ensures
        all_flagged(contributed(Some(name), entries, b), b),
    decreases entries, 2int, 0int,
{
    lemma_gather_flagged(entries, entries.len() as int, b);
    let g = gather(entries, entries.len() as int, b);
    let one = ItemView { segment: named_segment(name), children: g.0, terminating: g.1, requires_login: b };
    assert(seq![one][0] == one);
    assert(all_flagged(Seq::<ItemView>::empty(), b));
}

/// Below a `(login)` group every node requires a login, down to any
/// `(no_login)` group; below a `(no_login)` group none does, down to any
/// `(login)` group.
pub proof fn lemma_login_propagates(group: Seq<char>, entries: Seq<Entry>, inherited: bool)
    requires
        group == login_name() || group == no_login_name(),
        no_dir_named(entries, entries.len() as int, override_against(group == login_name())),
    ensures
        all_flagged(
            contributed(Some(group), entries, login_below(group, inherited)),
            group == login_name(),
        ),
{
    assert(login_name() != no_login_name()) by {
        assert(login_name().len() != no_login_name().len());
    }
    lemma_dir_flagged(group, entries, group == login_name());
}

/// Whether no file among `entries[0..n]`, or below them, marks a route end.
pub open spec fn unmarked(entries: Seq<Entry>, n: int) -> bool
    decreases entries, if n > 0 { n } else { 0 },
{
    if n <= 0 || n > entries.len() {
        true
    } else {
        unmarked(entries, n - 1) && match entries[n - 1] {
            Entry::File(name) => !is_page_file(name@),
            Entry::Dir(_, sub) => unmarked(sub@, sub@.len() as int),
        }
    }
}

proof fn lemma_gather_unmarked(entries: Seq<Entry>, n: int, b: bool)
    requires
        unmarked(entries, n),
    ensures
        gather(entries, n, b).0.len() == 0,
        !gather(entries, n, b).1,
    decreases entries, 1int, if n > 0 { n } else { 0 },
{
    if 0 < n <= entries.len() {
        lemma_gather_unmarked(entries, n - 1, b);
        match entries[n - 1] {
            Entry::File(_) => {},
            Entry::Dir(name, sub) => {
                assert(unmarked(sub@, sub@.len() as int));
                lemma_gather_unmarked(sub@, sub@.len() as int, login_below(name@, b));
                assert(dir_result(Some(name@), sub@, login_below(name@, b)) is None);
            },
        }
    }
}

/// A listing in which no file marks a route end builds an empty tree, and
/// that tree matches no path.
pub proof fn lemma_unmarked_tree_is_empty(entries: Seq<Entry>, f: SveltePathFinder, path: Seq<u8>)
    requires
        unmarked(entries, entries.len() as int),
        items_view(f.children@) == gather(entries, entries.len() as int, false).0,
        f.terminating == gather(entries, entries.len() as int, false).1,
    ensures
        f.children@.len() == 0,
        !f.terminating,
        finder_find(f, path) is None,
{
    lemma_gather_unmarked(entries, entries.len() as int, false);
    assert(items_view(f.children@).len() == f.children@.len());
}

/// Whether every node of `v`, and every node below them, ends a route or has
/// children.
pub open spec fn all_live(v: Seq<ItemView>) -> bool
    decreases v,
{
    forall|k: int|
        0 <= k < v.len() ==> ((#[trigger] v[k]).terminating || v[k].children.len() > 0) && all_live(
            v[k].children,
        )
}

proof fn lemma_live_concat(a: Seq<ItemView>, c: Seq<ItemView>)
    requires
        all_live(a),
        all_live(c),
    ensures
        all_live(a + c),
{
    let v = a + c;
    assert forall|k: int| 0 <= k < v.len() implies ((#[trigger] v[k]).terminating || v[k].children.len()
        > 0) && all_live(v[k].children) by {
        if k < a.len() {
            assert(v[k] == a[k]);
        } else {
            assert(v[k] == c[k - a.len()]);
        }
    }
}

proof fn lemma_gather_live(entries: Seq<Entry>, n: int, b: bool)
    ensures
        all_live(gather(entries, n, b).0),
    decreases entries, 1int, if n > 0 { n } else { 0 },
{
    if n <= 0 || n > entries.len() {
        assert(all_live(Seq::<ItemView>::empty()));
    } else {
        lemma_gather_live(entries, n - 1, b);
        match entries[n - 1] {
            Entry::File(_) => {},
            Entry::Dir(name, sub) => {
                lemma_dir_live(Some(name@), sub@, login_below(name@, b));
                if let Some(r) = dir_result(Some(name@), sub@, login_below(name@, b)) {
                    lemma_live_concat(gather(entries, n - 1, b).0, r.0);
                }
            },
        }
    }
}

proof fn lemma_dir_live(name: Option<Seq<char>>, entries: Seq<Entry>, b: bool)
    ensures
        all_live(contributed(name, entries, b)),
    decreases entries, 2int, 0int,
{
    lemma_gather_live(entries, entries.len() as int, b);
    let g = gather(entries, entries.len() as int, b);
    if let Some(n) = name {
        let one = ItemView { segment: named_segment(n), children: g.0, terminating: g.1, requires_login: b };
        assert(seq![one][0] == one);
    }
    assert(all_live(Seq::<ItemView>::empty()));
}

/// A built tree holds no dead node: every node, at any depth, ends a route or
/// has children.
pub proof fn lemma_built_tree_has_no_dead_nodes(entries: Seq<Entry>, f: SveltePathFinder)
    requires
        items_view(f.children@) == gather(entries, entries.len() as int, false).0,
    ensures
        all_live(items_view(f.children@)),
{
    lemma_gather_live(entries, entries.len() as int, false);
}

} // verus!
