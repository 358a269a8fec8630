use vstd::prelude::*;
use vstd::slice::slice_subrange;
use vstd::string::StringSliceAdditionalSpecFns;
use crate::decode::{decode_binary, lemma_decode_plain, percent_decode, PERCENT};
use crate::classify::{parts_view, PartView};
use crate::pattern::{parts_match, utf8_of, ComplexWildcard};

verus! {

/// The byte `/`, which separates path segments.
pub const SLASH: u8 = 47;

/// What one node of a route tree matches.
pub enum Segment {
    /// Exactly this text, after percent-decoding.
    Static(String),
    /// Any one segment, the empty one included.
    Wildcard,
    /// Zero or one segment.
    OptionalWildcard,
    /// Zero or more segments.
    RepeatedWildcard,
    /// One segment that the parts consume exactly, after percent-decoding.
    ComplexWildcard(Vec<ComplexWildcard>),
}

/// A node of a route tree. `terminating` marks a node at which a route ends;
/// the children are tried in order.
pub struct Item {
    pub segment: Segment,
    pub children: Vec<Item>,
    pub terminating: bool,
    pub requires_login: bool,
}

/// The root of a route tree: the path `/`.
pub struct SveltePathFinder {
    pub children: Vec<Item>,
    pub terminating: bool,
    pub requires_login: bool,
}

/// The length of the first segment of `path`: the position of its first `/`,
/// or its length if it has none.
pub open spec fn segment_end(path: Seq<u8>) -> int
    decreases path.len(),
{
    if path.len() == 0 || path[0] == SLASH {
        0
    } else {
        1 + segment_end(path.subrange(1, path.len() as int))
    }
}

/// The text of `path` before its first `/`.
pub open spec fn first_segment(path: Seq<u8>) -> Seq<u8> {
    path.subrange(0, segment_end(path))
}

/// The text of `path` after its first `/`; empty if it has none.
pub open spec fn rest_of_path(path: Seq<u8>) -> Seq<u8> {
    if 0 <= segment_end(path) < path.len() {
        path.subrange(segment_end(path) + 1, path.len() as int)
    } else {
        Seq::empty()
    }
}

/// The first segment ends at the first `/`.
pub proof fn lemma_segment_end(path: Seq<u8>, e: int)
    requires
        0 <= e <= path.len(),
        forall|j: int| 0 <= j < e ==> path[j] != SLASH,
        e == path.len() || path[e] == SLASH,
    ensures
        segment_end(path) == e,
        0 <= segment_end(path) <= path.len(),
    decreases e,
{
    if e > 0 {
        let t = path.subrange(1, path.len() as int);
        lemma_segment_end(t, e - 1);
    }
}

/// What matching `path` against `item` gives: the login flag of the route
/// that matches first, or `None`.
pub open spec fn item_find(item: Item, path: Seq<u8>) -> Option<bool>
    decreases item, path.len(), 1int, 0int,
{
    let seg = first_segment(path);
    let rem = rest_of_path(path);
    let proceed = if rem.len() == 0 && item.terminating {
        Some(item.requires_login)
    } else {
        first_found(item.children@, rem, 0)
    };
    match item.segment {
        Segment::Static(lit) => if percent_decode(seg) == utf8_of(&lit) {
            proceed
        } else {
            None
        },
        Segment::ComplexWildcard(parts) => if parts_match(parts@, percent_decode(seg)) {
            proceed
        } else {
            None
        },
        Segment::Wildcard => proceed,
        Segment::OptionalWildcard => if first_found(item.children@, path, 0) is Some {
            first_found(item.children@, path, 0)
        } else {
            proceed
        },
        Segment::RepeatedWildcard => if first_found(item.children@, path, 0) is Some {
            first_found(item.children@, path, 0)
        } else if rem.len() > 0 && item_find(item, rem) is Some {
            item_find(item, rem)
        } else {
            proceed
        },
    }
}

/// The first result among `items[k..]` matched against `path`, in order.
pub open spec fn first_found(items: Seq<Item>, path: Seq<u8>, k: int) -> Option<bool>
    decreases items, path.len(), 0int, if k < items.len() { items.len() - k } else { 0 },
{
    if 0 <= k < items.len() {
        if item_find(items[k], path) is Some {
            item_find(items[k], path)
        } else {
            first_found(items, path, k + 1)
        }
    } else {
        None
    }
}

/// What matching `path` against the whole tree gives: one leading `/` is
/// dropped, the empty path is the root itself, and otherwise the children are
/// tried in order.
pub open spec fn finder_find(f: SveltePathFinder, path: Seq<u8>) -> Option<bool> {
    let p = if path.len() > 0 && path[0] == SLASH {
        path.subrange(1, path.len() as int)
    } else {
        path
    };
    if f.terminating && p.len() == 0 {
        Some(f.requires_login)
    } else {
        first_found(f.children@, p, 0)
    }
}

/// Whether two byte strings are equal.
fn bytes_equal(a: &[u8], b: &[u8]) -> (r: bool)
    ensures
        r == (a@ == b@),
{
    if a.len() != b.len() {
        return false;
    }
    let mut i: usize = 0;
    while i < a.len()
        invariant
            i <= a@.len() == b@.len(),
            forall|j: int| 0 <= j < i ==> a@[j] == b@[j],
        decreases a@.len() - i,
    {
        if a[i] != b[i] {
            return false;
        }
        i += 1;
    }
    assert(a@ =~= b@);
    true
}

/// Splits `path` at its first `/` into the segment before it and the rest
/// after it.
fn split_first_segment(path: &[u8]) -> (r: (&[u8], &[u8]))
    ensures
        r.0@ == first_segment(path@),
        r.1@ == rest_of_path(path@),
{
    let mut i: usize = 0;
    while i < path.len() && path[i] != SLASH
        invariant
            i <= path@.len(),
            forall|j: int| 0 <= j < i ==> path@[j] != SLASH,
        decreases path@.len() - i,
    {
        i += 1;
    }
    proof {
        lemma_segment_end(path@, i as int);
    }
    let segment = slice_subrange(path, 0, i);
    if i < path.len() {
        (segment, slice_subrange(path, i + 1, path.len()))
    } else {
        (segment, slice_subrange(path, i, i))
    }
}

impl Item {
    /// The login flag of the first route under this node that matches `path`,
    /// or `None` if none does.
    pub fn find(&self, path: &str) -> (r: Option<bool>)
        ensures
            r == item_find(*self, path.spec_bytes()),
    {
        self.find_bytes(path.as_bytes())
    }

    /// `find` on the raw bytes of a path.
    pub fn find_bytes(&self, path: &[u8]) -> (r: Option<bool>)
        ensures
            r == item_find(*self, path@),
        decreases *self, path@.len(), 1int, 0int,
    {
        let (segment, remaining) = split_first_segment(path);
        let matches = match &self.segment {
            Segment::Static(x) => {
                let decoded = decode_binary(segment);
                bytes_equal(decoded.as_slice(), x.as_str().as_bytes())
            },
            Segment::ComplexWildcard(items) => {
                let decoded = decode_binary(segment);
                ComplexWildcard::matches_bytes(items.as_slice(), decoded.as_slice())
            },
            Segment::Wildcard => true,
            Segment::OptionalWildcard => {
                let res = self.find_child(path);
                if res.is_some() {
                    return res;
                }
                true
            },
            Segment::RepeatedWildcard => {
                let mut res = self.find_child(path);
                if res.is_none() && remaining.len() > 0 {
                    res = self.find_bytes(remaining);
                }
                if res.is_some() {
                    return res;
                }
                true
            },
        };
        if matches {
            if remaining.len() == 0 && self.terminating {
                return Some(self.requires_login);
            }
            self.find_child(remaining)
        } else {
            None
        }
    }

    /// The first result among the children matched against `path`, in order.
    fn find_child(&self, path: &[u8]) -> (r: Option<bool>)
        ensures
            r == first_found(self.children@, path@, 0),
        decreases *self, path@.len(), 0int, 0int,
    {
        let mut i: usize = 0;
        while i < self.children.len()
            invariant
                i <= self.children@.len(),
                first_found(self.children@, path@, 0) == first_found(self.children@, path@, i as int),
            decreases self.children@.len() - i,
        {
            let r = self.children[i].find_bytes(path);
            if r.is_some() {
                return r;
            }
            i += 1;
        }
        None
    }
}

impl SveltePathFinder {
    /// The login flag of the first route that matches `path`, or `None` if
    /// none does.
    pub fn find(&self, path: &str) -> (r: Option<bool>)
        ensures
            r == finder_find(*self, path.spec_bytes()),
    {
        let mut p = path.as_bytes();
        if p.len() > 0 && p[0] == SLASH {
            p = slice_subrange(p, 1, p.len());
        }
        if self.terminating && p.len() == 0 {
            return Some(self.requires_login);
        }
        let mut i: usize = 0;
        while i < self.children.len()
            invariant
                i <= self.children@.len(),
                !(self.terminating && p@.len() == 0),
                finder_find(*self, path.spec_bytes()) == first_found(self.children@, p@, 0),
                first_found(self.children@, p@, 0) == first_found(self.children@, p@, i as int),
            decreases self.children@.len() - i,
        {
            let r = self.children[i].find_bytes(p);
            if r.is_some() {
                return r;
            }
            i += 1;
        }
        None
    }
}

/// What a node matches, as text.
pub enum SegmentView {
    Static(Seq<char>),
    Wildcard,
    OptionalWildcard,
    RepeatedWildcard,
    ComplexWildcard(Seq<PartView>),
}

/// A node of a route tree, as plain values.
pub struct ItemView {
    pub segment: SegmentView,
    pub children: Seq<ItemView>,
    pub terminating: bool,
    pub requires_login: bool,
}

pub open spec fn segment_view(s: Segment) -> SegmentView {
    match s {
        Segment::Static(x) => SegmentView::Static(x@),
        Segment::Wildcard => SegmentView::Wildcard,
        Segment::OptionalWildcard => SegmentView::OptionalWildcard,
        Segment::RepeatedWildcard => SegmentView::RepeatedWildcard,
        Segment::ComplexWildcard(parts) => SegmentView::ComplexWildcard(parts_view(parts@)),
    }
}

/// The plain-value form of a node and everything under it.
pub open spec fn item_view(i: Item) -> ItemView
    decreases i,
{
    ItemView {
        segment: segment_view(i.segment),
        children: Seq::new(
            i.children@.len(),
            |k: int|
                if 0 <= k < i.children@.len() {
                    item_view(i.children@[k])
                } else {
                    ItemView {
                        segment: SegmentView::Wildcard,
                        children: Seq::empty(),
                        terminating: false,
                        requires_login: false,
                    }
                },
        ),
        terminating: i.terminating,
        requires_login: i.requires_login,
    }
}

/// The plain-value form of each node.
pub open spec fn items_view(v: Seq<Item>) -> Seq<ItemView> {
    v.map_values(|i: Item| item_view(i))
}

/// Whether `s` holds no `/`: a path of one segment.
pub open spec fn no_slash(s: Seq<u8>) -> bool {
    forall|j: int| 0 <= j < s.len() ==> s[j] != SLASH
}

/// A path without `/` is one segment with nothing after it.
pub proof fn lemma_single_segment(s: Seq<u8>)
    requires
        no_slash(s),
    ensures
        first_segment(s) == s,
        rest_of_path(s) == Seq::<u8>::empty(),
{
    lemma_segment_end(s, s.len() as int);
    assert(s.subrange(0, s.len() as int) =~= s);
}

/// A path `s/t` with `s` free of `/` splits into `s` and `t`.
pub proof fn lemma_two_segments(s: Seq<u8>, t: Seq<u8>)
    requires
        no_slash(s),
    ensures
        first_segment(s + seq![SLASH] + t) == s,
        rest_of_path(s + seq![SLASH] + t) == t,
{
    let p = s + seq![SLASH] + t;
    lemma_segment_end(p, s.len() as int);
    assert(p.subrange(0, s.len() as int) =~= s);
    assert(p.subrange(s.len() as int + 1, p.len() as int) =~= t);
}

/// `/s` seen from the root is `s`.
pub proof fn lemma_root_path(s: Seq<u8>)
    ensures
        (seq![SLASH] + s).subrange(1, s.len() as int + 1) == s,
{
    assert((seq![SLASH] + s).subrange(1, s.len() as int + 1) =~= s);
}

/// A list of one node finds what that node finds.
pub proof fn lemma_first_found_single(items: Seq<Item>, path: Seq<u8>)
    requires
        items.len() == 1,
    ensures
        first_found(items, path, 0) == item_find(items[0], path),
{
    assert(first_found(items, path, 1) is None);
}

/// A tree whose only route is one literal segment matches a one-segment path
/// exactly when the path decodes to that literal; for a literal and a path
/// without `%`, exactly when they are equal.
pub proof fn lemma_static_route(f: SveltePathFinder, s: Seq<u8>)
    requires
        f.children@.len() == 1,
        !f.terminating,
        f.children@[0].segment is Static,
        f.children@[0].terminating,
        no_slash(s),
    ensures
        finder_find(f, seq![SLASH] + s) is Some <==> percent_decode(s) == utf8_of(
            &f.children@[0].segment->Static_0,
        ),
        (forall|j: int| 0 <= j < s.len() ==> s[j] != PERCENT) ==> (finder_find(f, seq![SLASH] + s) is Some
            <==> s == utf8_of(&f.children@[0].segment->Static_0)),
{
    lemma_root_path(s);
    lemma_single_segment(s);
    lemma_first_found_single(f.children@, s);
    if forall|j: int| 0 <= j < s.len() ==> s[j] != PERCENT {
        lemma_decode_plain(s);
    }
}

/// A tree whose only child is a terminating parameter matches every
/// one-segment path, the empty segment included.
pub proof fn lemma_wildcard_route(f: SveltePathFinder, s: Seq<u8>)
    requires
        f.children@.len() == 1,
        f.children@[0].segment is Wildcard,
        f.children@[0].terminating,
        no_slash(s),
    ensures
        finder_find(f, seq![SLASH] + s) is Some,
{
    lemma_root_path(s);
    lemma_single_segment(s);
    lemma_first_found_single(f.children@, s);
}

/// An optional parameter defers to its children on the whole path: when they
/// find a route, that route is the result.
pub proof fn lemma_optional_prefers_children(item: Item, path: Seq<u8>)
    requires
        item.segment is OptionalWildcard,
        first_found(item.children@, path, 0) is Some,
    ensures
        item_find(item, path) == first_found(item.children@, path, 0),
{
}

/// Below a literal segment `p`, a terminating optional parameter without
/// children matches both `/p` and `/p/x`.
pub proof fn lemma_optional_route(f: SveltePathFinder, s: Seq<u8>, x: Seq<u8>)
    requires
        f.children@.len() == 1,
        !f.terminating,
        f.children@[0].segment is Static,
        !f.children@[0].terminating,
        f.children@[0].children@.len() == 1,
        f.children@[0].children@[0].segment is OptionalWildcard,
        f.children@[0].children@[0].terminating,
        f.children@[0].children@[0].children@.len() == 0,
        percent_decode(s) == utf8_of(&f.children@[0].segment->Static_0),
        no_slash(s),
        no_slash(x),
    ensures
        finder_find(f, seq![SLASH] + s) is Some,
        finder_find(f, seq![SLASH] + s + seq![SLASH] + x) is Some,
{
    let parent = f.children@[0];
    let opt = parent.children@[0];
    let empty = Seq::<u8>::empty();
    lemma_root_path(s);
    lemma_single_segment(s);
    lemma_single_segment(empty);
    lemma_first_found_single(f.children@, s);
    lemma_first_found_single(parent.children@, empty);
    assert(first_found(opt.children@, empty, 0) is None);
    let long = s + seq![SLASH] + x;
    assert(seq![SLASH] + s + seq![SLASH] + x =~= seq![SLASH] + long);
    lemma_root_path(long);
    lemma_two_segments(s, x);
    lemma_single_segment(x);
    lemma_first_found_single(f.children@, long);
    lemma_first_found_single(parent.children@, x);
    assert(first_found(opt.children@, x, 0) is None);
}

/// A terminating catch-all without children matches every path.
pub proof fn lemma_repeated_matches_all(item: Item, path: Seq<u8>)
    requires
        item.segment is RepeatedWildcard,
        item.terminating,
        item.children@.len() == 0,
    ensures
        item_find(item, path) is Some,
    decreases path.len(),
{
    let rem = rest_of_path(path);
    assert(first_found(item.children@, path, 0) is None);
    if rem.len() > 0 {
        lemma_repeated_matches_all(item, rem);
    }
}

/// Below a literal segment `b`, a terminating catch-all without children
/// matches `/b` and `/b/t` for every tail `t`, of any number of segments.
pub proof fn lemma_repeated_route(f: SveltePathFinder, s: Seq<u8>, t: Seq<u8>)
    requires
        f.children@.len() == 1,
        !f.terminating,
        f.children@[0].segment is Static,
        !f.children@[0].terminating,
        f.children@[0].children@.len() == 1,
        f.children@[0].children@[0].segment is RepeatedWildcard,
        f.children@[0].children@[0].terminating,
        f.children@[0].children@[0].children@.len() == 0,
        percent_decode(s) == utf8_of(&f.children@[0].segment->Static_0),
        no_slash(s),
    ensures
        finder_find(f, seq![SLASH] + s) is Some,
        finder_find(f, seq![SLASH] + s + seq![SLASH] + t) is Some,
{
    let parent = f.children@[0];
    let rep = parent.children@[0];
    let empty = Seq::<u8>::empty();
    lemma_root_path(s);
    lemma_single_segment(s);
    lemma_first_found_single(f.children@, s);
    lemma_first_found_single(parent.children@, empty);
    lemma_repeated_matches_all(rep, empty);
    let long = s + seq![SLASH] + t;
    assert(seq![SLASH] + s + seq![SLASH] + t =~= seq![SLASH] + long);
    lemma_root_path(long);
    lemma_two_segments(s, t);
    lemma_first_found_single(f.children@, long);
    lemma_first_found_single(parent.children@, t);
    lemma_repeated_matches_all(rep, t);
}

/// Matching keeps no state: the same tree and the same path always give the
/// same result.
pub proof fn lemma_find_deterministic(f: SveltePathFinder, g: SveltePathFinder, p: Seq<u8>, q: Seq<u8>)
    requires
        f == g,
        p == q,
    ensures
        finder_find(f, p) == finder_find(g, q),
{
}

/// `%2Fx` decodes to `/x` before a literal is compared, so a terminating
/// literal `/x` matches the segment `%2Fx`, and a literal `%2Fx` does not.
pub proof fn lemma_decoded_before_compare(item: Item)
    requires
        item.segment is Static,
        item.terminating,
    ensures
        utf8_of(&item.segment->Static_0) == seq![SLASH, 120u8] ==> item_find(item, seq![PERCENT, 50u8, 70u8, 120u8]) is Some,
        utf8_of(&item.segment->Static_0) == seq![PERCENT, 50u8, 70u8, 120u8] ==> item_find(item, seq![PERCENT, 50u8, 70u8, 120u8]) is None,
{
    let raw = seq![PERCENT, 50u8, 70u8, 120u8];
    let tail = raw.subrange(3, 4);
    assert(tail =~= seq![120u8]);
    lemma_decode_plain(tail);
    assert(percent_decode(raw) =~= seq![SLASH, 120u8]);
    assert(no_slash(raw));
    lemma_single_segment(raw);
    assert(seq![SLASH, 120u8] != raw);
}

} // verus!
