use vstd::prelude::*;
use vstd::string::StrSliceExecFns;
use crate::pattern::ComplexWildcard;

verus! {

/// How a directory name takes part in a route.
pub enum SegmentType {
    /// `(name)`: a group that adds no segment.
    Ignore,
    /// `[[name]]`: zero or one segment.
    OptionalWildcard,
    /// `[...name]`: zero or more segments.
    RepeatedWildcard,
    /// `[name]`: one segment.
    Wildcard,
    /// Literal text.
    Static,
    /// Literal text mixed with `[name]` parameters.
    ComplexWildcard,
}

/// A part of a mixed segment, as text.
pub enum PartView {
    Static(Seq<char>),
    Wildcard,
}

impl View for ComplexWildcard {
    type V = PartView;

    open spec fn view(&self) -> PartView {
        match self {
            ComplexWildcard::Static(s) => PartView::Static(s@),
            ComplexWildcard::Wildcard => PartView::Wildcard,
        }
    }
}

/// Whether `s` begins with `p`.
pub open spec fn starts_with_chars(s: Seq<char>, p: Seq<char>) -> bool {
    p.len() <= s.len() && s.subrange(0, p.len() as int) == p
}

/// Whether `s` ends with `p`.
pub open spec fn ends_with_chars(s: Seq<char>, p: Seq<char>) -> bool {
    p.len() <= s.len() && s.subrange(s.len() - p.len(), s.len() as int) == p
}

/// Whether some `[` comes before some `]`.
pub open spec fn has_bracket_pair(s: Seq<char>) -> bool {
    exists|i: int, j: int| 0 <= i < j < s.len() && s[i] == '[' && s[j] == ']'
}

/// The kind of a directory name; the first rule that applies wins.
pub open spec fn classify(s: Seq<char>) -> SegmentType {
    if starts_with_chars(s, seq!['(']) && ends_with_chars(s, seq![')']) {
        SegmentType::Ignore
    } else if starts_with_chars(s, seq!['[', '[']) && ends_with_chars(s, seq![']', ']']) {
        SegmentType::OptionalWildcard
    } else if starts_with_chars(s, seq!['[', '.', '.', '.']) && ends_with_chars(s, seq![']']) {
        SegmentType::RepeatedWildcard
    } else if starts_with_chars(s, seq!['[']) && ends_with_chars(s, seq![']']) {
        SegmentType::Wildcard
    } else if has_bracket_pair(s) {
        SegmentType::ComplexWildcard
    } else {
        SegmentType::Static
    }
}

/// The characters of a string.
pub(crate) fn chars_of(s: &str) -> (r: Vec<char>)
    ensures
        r@ == s@,
{
    let n = s.unicode_len();
    let mut r: Vec<char> = Vec::new();
    let mut i: usize = 0;
    while i < n
        invariant
            n == s@.len(),
            i <= n,
            r@ == s@.subrange(0, i as int),
        decreases n - i,
    {
        r.push(s.get_char(i));
        i += 1;
    }
    assert(r@ =~= s@);
    r
}

/// Whether `s` begins with `p`.
pub(crate) fn starts_with_seq(s: &Vec<char>, p: &Vec<char>) -> (r: bool)
    ensures
        r == starts_with_chars(s@, p@),
{
    if p.len() > s.len() {
        return false;
    }
    let mut i: usize = 0;
    while i < p.len()
        invariant
            i <= p@.len() <= s@.len(),
            forall|j: int| 0 <= j < i ==> s@[j] == p@[j],
        decreases p@.len() - i,
    {
        if s[i] != p[i] {
            assert(s@.subrange(0, p@.len() as int)[i as int] != p@[i as int]);
            return false;
        }
        i += 1;
    }
    assert(s@.subrange(0, p@.len() as int) =~= p@);
    true
}

/// Whether `s` ends with `p`.
fn ends_with_seq(s: &Vec<char>, p: &Vec<char>) -> (r: bool)
    ensures
        r == ends_with_chars(s@, p@),
{
    if p.len() > s.len() {
        return false;
    }
    let n = s.len();
    let off = n - p.len();
    let mut i: usize = 0;
    while i < p.len()
        invariant
            i <= p@.len() <= s@.len(),
            off + p@.len() == n,
            n == s@.len(),
            forall|j: int| 0 <= j < i ==> s@[off + j] == p@[j],
        decreases p@.len() - i,
    {
        let k: usize = off + i;
        if s[k] != p[i] {
            assert(s@.subrange(off as int, s@.len() as int)[i as int] != p@[i as int]);
            return false;
        }
        i += 1;
    }
    assert(s@.subrange(off as int, s@.len() as int) =~= p@);
    true
}

impl SegmentType {
    /// The kind of the directory name `segment`.
    pub fn from_str(segment: &str) -> (r: Self)
        ensures
            r == classify(segment@),
    {
        let s = chars_of(segment);
        let open_paren = vec!['('];
        let close_paren = vec![')'];
        let open2 = vec!['[', '['];
        let close2 = vec![']', ']'];
        let open_rest = vec!['[', '.', '.', '.'];
        let open1 = vec!['['];
        let close1 = vec![']'];
        assert(open_paren@ =~= seq!['(']);
        assert(close_paren@ =~= seq![')']);
        assert(open2@ =~= seq!['[', '[']);
        assert(close2@ =~= seq![']', ']']);
        assert(open_rest@ =~= seq!['[', '.', '.', '.']);
        assert(open1@ =~= seq!['[']);
        assert(close1@ =~= seq![']']);
        if starts_with_seq(&s, &open_paren) && ends_with_seq(&s, &close_paren) {
            return SegmentType::Ignore;
        }
        if starts_with_seq(&s, &open2) && ends_with_seq(&s, &close2) {
            return SegmentType::OptionalWildcard;
        }
        if starts_with_seq(&s, &open_rest) && ends_with_seq(&s, &close1) {
            return SegmentType::RepeatedWildcard;
        }
        if starts_with_seq(&s, &open1) && ends_with_seq(&s, &close1) {
            return SegmentType::Wildcard;
        }
        let mut wildcard_started = false;
        let mut first_open: usize = 0;
        let mut i: usize = 0;
        while i < s.len()
            invariant
                i <= s@.len(),
                s@ == segment@,
                classify(segment@) == (if has_bracket_pair(segment@) {
                    SegmentType::ComplexWildcard
                } else {
                    SegmentType::Static
                }),
                wildcard_started ==> first_open < i && s@[first_open as int] == '[',
                !wildcard_started ==> forall|j: int| 0 <= j < i ==> s@[j] != '[',
                forall|a: int, b: int| 0 <= a < b < i ==> !(s@[a] == '[' && s@[b] == ']'),
            decreases s@.len() - i,
        {
            if s[i] == '[' {
                if !wildcard_started {
                    first_open = i;
                }
                wildcard_started = true;
            } else if s[i] == ']' && wildcard_started {
                assert(has_bracket_pair(s@)) by {
                    assert(0 <= first_open < i < s@.len());
                    assert(s@[first_open as int] == '[' && s@[i as int] == ']');
                }
                return SegmentType::ComplexWildcard;
            }
            i += 1;
        }
        SegmentType::Static
    }
}

/// A literal part holding `t`, or no part when `t` is empty.
pub open spec fn literal_part(t: Seq<char>) -> Seq<PartView> {
    if t.len() > 0 {
        seq![PartView::Static(t)]
    } else {
        Seq::empty()
    }
}

/// The parts that scanning `s` from position `i` yields, when the literal
/// text pending began at `start` and `depth` brackets are open, the outermost
/// at `open`. A bracket group that closes at depth zero becomes a parameter;
/// the text between groups becomes literal parts.
pub open spec fn scan_parts(s: Seq<char>, i: int, start: int, open: int, depth: nat) -> Seq<PartView>
    decreases s.len() - i,
{
    if i >= s.len() {
        literal_part(s.subrange(start, s.len() as int))
    } else if depth == 0 {
        if s[i] == '[' {
            scan_parts(s, i + 1, start, i, 1)
        } else {
            scan_parts(s, i + 1, start, open, 0)
        }
    } else if s[i] == '[' {
        scan_parts(s, i + 1, start, open, depth + 1)
    } else if s[i] == ']' {
        if depth == 1 {
            literal_part(s.subrange(start, open)) + seq![PartView::Wildcard] + scan_parts(
                s,
                i + 1,
                i + 1,
                open,
                0,
            )
        } else {
            scan_parts(s, i + 1, start, open, (depth - 1) as nat)
        }
    } else {
        scan_parts(s, i + 1, start, open, depth)
    }
}

/// The parts of a mixed segment such as `pre[id]post`.
pub open spec fn complex_parts(s: Seq<char>) -> Seq<PartView> {
    scan_parts(s, 0, 0, 0, 0)
}

/// The text view of each part.
pub open spec fn parts_view(v: Seq<ComplexWildcard>) -> Seq<PartView> {
    v.map_values(|p: ComplexWildcard| p@)
}

/// Splits a directory name that mixes literal text and `[name]` parameters
/// into its parts, in order.
pub fn parse_complex(segment: &str) -> (r: Vec<ComplexWildcard>)
    ensures
        parts_view(r@) == complex_parts(segment@),
{
    let s = chars_of(segment);
    let n = s.len();
    let mut parts: Vec<ComplexWildcard> = Vec::new();
    let mut start: usize = 0;
    let mut open: usize = 0;
    let mut depth: usize = 0;
    let mut i: usize = 0;
    while i < n
        invariant
            n == s@.len(),
            s@ == segment@,
            start <= i <= n,
            depth <= i,
            depth > 0 ==> start <= open < i,
            parts_view(parts@) + scan_parts(s@, i as int, start as int, open as int, depth as nat)
                == complex_parts(segment@),
        decreases n - i,
    {
        let ghost before = parts_view(parts@);
        if depth == 0 {
            if s[i] == '[' {
                open = i;
                depth = 1;
            }
        } else if s[i] == '[' {
            depth += 1;
        } else if s[i] == ']' {
            depth -= 1;
            if depth == 0 {
                if open > start {
                    let lit = segment.substring_char(start, open).to_owned();
                    parts.push(ComplexWildcard::Static(lit));
                }
                parts.push(ComplexWildcard::Wildcard);
                proof {
                    let mid = literal_part(s@.subrange(start as int, open as int)) + seq![PartView::Wildcard];
                    assert(parts_view(parts@) =~= before + mid);
                    assert(before + mid + scan_parts(s@, i + 1, i + 1, open as int, 0) =~= before + (mid
                        + scan_parts(s@, i + 1, i + 1, open as int, 0)));
                }
                start = i + 1;
            }
        }
        i += 1;
    }
    if start < n {
        let ghost before = parts_view(parts@);
        let lit = segment.substring_char(start, n).to_owned();
        parts.push(ComplexWildcard::Static(lit));
        assert(parts_view(parts@) =~= before + literal_part(s@.subrange(start as int, n as int)));
    } else {
        assert(parts_view(parts@) =~= parts_view(parts@) + literal_part(s@.subrange(start as int, n as int)));
    }
    parts
}

/// Whether no two literal parts stand next to each other.
pub open spec fn no_adjacent_literals(v: Seq<PartView>) -> bool {
    forall|k: int| 0 <= k < v.len() - 1 ==> !((#[trigger] v[k]) is Static && v[k + 1] is Static)
}

proof fn lemma_scan_no_adjacent(s: Seq<char>, i: int, start: int, open: int, depth: nat)
    ensures
        no_adjacent_literals(scan_parts(s, i, start, open, depth)),
    decreases s.len() - i,
{
    if i >= s.len() {
    } else if depth == 0 {
        if s[i] == '[' {
            lemma_scan_no_adjacent(s, i + 1, start, i, 1);
        } else {
            lemma_scan_no_adjacent(s, i + 1, start, open, 0);
        }
    } else if s[i] == '[' {
        lemma_scan_no_adjacent(s, i + 1, start, open, depth + 1);
    } else if s[i] == ']' {
        if depth == 1 {
            lemma_scan_no_adjacent(s, i + 1, i + 1, open, 0);
            let lp = literal_part(s.subrange(start, open));
            let mid = lp + seq![PartView::Wildcard];
            let tail = scan_parts(s, i + 1, i + 1, open, 0);
            let v = mid + tail;
            assert(scan_parts(s, i, start, open, depth) == v);
            assert forall|k: int| 0 <= k < v.len() - 1 implies !((#[trigger] v[k]) is Static && v[k + 1] is Static) by {
                if k + 1 < mid.len() {
                    assert(v[k + 1] == mid[k + 1]);
                } else if k + 1 == mid.len() {
                    assert(v[k] == mid[k]);
                } else {
                    assert(v[k] == tail[k - mid.len()]);
                    assert(v[k + 1] == tail[k + 1 - mid.len()]);
                }
            }
        } else {
            lemma_scan_no_adjacent(s, i + 1, start, open, (depth - 1) as nat);
        }
    } else {
        lemma_scan_no_adjacent(s, i + 1, start, open, depth);
    }
}

/// The parts of a mixed segment never hold two literal parts in a row.
pub proof fn lemma_parts_alternate(s: Seq<char>)
    ensures
        no_adjacent_literals(complex_parts(s)),
{
    lemma_scan_no_adjacent(s, 0, 0, 0, 0);
}

} // verus!
