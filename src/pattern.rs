use vstd::prelude::*;
use vstd::slice::slice_subrange;
use vstd::string::StringSliceAdditionalSpecFns;

verus! {

/// One part of a segment pattern that mixes literal text and parameters,
/// such as `pre[id]post`.
pub enum ComplexWildcard {
    Static(String),
    Wildcard,
}

/// The UTF-8 bytes of a string.
pub open spec fn utf8_of(s: &String) -> Seq<u8> {
    vstd::utf8::encode_utf8(s@)
}

/// Whether `text` begins with `prefix`.
pub open spec fn has_prefix<T>(text: Seq<T>, prefix: Seq<T>) -> bool {
    prefix.len() <= text.len() && text.subrange(0, prefix.len() as int) == prefix
}

/// Whether the parts, in order, consume `text` exactly: a literal consumes
/// itself, a parameter any run of bytes (the empty run included).
pub open spec fn parts_match(parts: Seq<ComplexWildcard>, text: Seq<u8>) -> bool
    decreases parts.len(), 0int,
{
    if parts.len() == 0 {
        text.len() == 0
    } else {
        let rest = parts.subrange(1, parts.len() as int);
        match parts[0] {
            ComplexWildcard::Static(lit) => has_prefix(text, utf8_of(&lit)) && parts_match(
                rest,
                text.subrange(utf8_of(&lit).len() as int, text.len() as int),
            ),
            ComplexWildcard::Wildcard => tail_matches(rest, text, 0),
        }
    }
}

/// Whether `rest` consumes `text` from some position at or after `k` up to
/// its end.
pub open spec fn tail_matches(rest: Seq<ComplexWildcard>, text: Seq<u8>, k: int) -> bool
    decreases rest.len(), if k < text.len() { text.len() - k + 1 } else { 1 },
{
    if k < text.len() {
        parts_match(rest, text.subrange(k, text.len() as int)) || tail_matches(rest, text, k + 1)
    } else {
        parts_match(rest, text.subrange(text.len() as int, text.len() as int))
    }
}

/// `tail_matches` holds exactly when some tail of `text` from `k` on is
/// consumed by `rest`.
pub proof fn lemma_tail_matches(rest: Seq<ComplexWildcard>, text: Seq<u8>, k: int)
    requires
        0 <= k <= text.len(),
    ensures
        tail_matches(rest, text, k) <==> exists|j: int|
            k <= j <= text.len() && #[trigger] parts_match(rest, text.subrange(j, text.len() as int)),
    decreases text.len() - k,
{
    if k < text.len() {
        lemma_tail_matches(rest, text, k + 1);
        if parts_match(rest, text.subrange(k, text.len() as int)) {
            assert(tail_matches(rest, text, k));
        }
        if tail_matches(rest, text, k + 1) {
            let j = choose|j: int|
                k + 1 <= j <= text.len() && #[trigger] parts_match(rest, text.subrange(j, text.len() as int));
            assert(k <= j <= text.len() && parts_match(rest, text.subrange(j, text.len() as int)));
        }
        if exists|j: int|
            k <= j <= text.len() && #[trigger] parts_match(rest, text.subrange(j, text.len() as int)) {
            let j = choose|j: int|
                k <= j <= text.len() && #[trigger] parts_match(rest, text.subrange(j, text.len() as int));
            if j > k {
                assert(tail_matches(rest, text, k + 1));
            }
        }
    } else {
        if exists|j: int|
            k <= j <= text.len() && #[trigger] parts_match(rest, text.subrange(j, text.len() as int)) {
            let j = choose|j: int|
                k <= j <= text.len() && #[trigger] parts_match(rest, text.subrange(j, text.len() as int));
            assert(j == k);
        }
        if tail_matches(rest, text, k) {
            assert(parts_match(rest, text.subrange(k, text.len() as int)));
        }
    }
}

/// Whether `text` begins with `prefix`.
fn starts_with_bytes(text: &[u8], prefix: &[u8]) -> (r: bool)
    ensures
        r == has_prefix(text@, prefix@),
{
    if prefix.len() > text.len() {
        return false;
    }
    let mut i: usize = 0;
    while i < prefix.len()
        invariant
            i <= prefix@.len() <= text@.len(),
            forall|j: int| 0 <= j < i ==> text@[j] == prefix@[j],
        decreases prefix@.len() - i,
    {
        if text[i] != prefix[i] {
            assert(text@.subrange(0, prefix@.len() as int)[i as int] != prefix@[i as int]);
            return false;
        }
        i += 1;
    }
    assert(text@.subrange(0, prefix@.len() as int) =~= prefix@);
    true
}

impl ComplexWildcard {
    /// Whether `items` consume the bytes of `segment` exactly.
    pub fn matches(items: &[Self], segment: &str) -> (r: bool)
        ensures
            r == parts_match(items@, segment.spec_bytes()),
    {
        Self::matches_bytes(items, segment.as_bytes())
    }

    /// Whether `items` consume `segment` exactly; a parameter followed by more
    /// parts tries the shortest run first.
    pub fn matches_bytes(items: &[Self], segment: &[u8]) -> (r: bool)
        ensures
            r == parts_match(items@, segment@),
        decreases items@.len(),
    {
        if items.len() == 0 {
            return segment.len() == 0;
        }
        let rest = slice_subrange(items, 1, items.len());
        assert(rest@ == items@.subrange(1, items@.len() as int));
        match &items[0] {
            ComplexWildcard::Static(x) => {
                let lit = x.as_str().as_bytes();
                if starts_with_bytes(segment, lit) {
                    let tail = slice_subrange(segment, lit.len(), segment.len());
                    Self::matches_bytes(rest, tail)
                } else {
                    false
                }
            },
            ComplexWildcard::Wildcard => {
                if items.len() == 1 {
                    proof {
                        let end = segment@.subrange(segment@.len() as int, segment@.len() as int);
                        assert(parts_match(rest@, end));
                        lemma_tail_matches(rest@, segment@, 0);
                    }
                    return true;
                }
                let mut k: usize = 0;
                while k < segment.len()
                    invariant
                        k <= segment@.len(),
                        items@.len() > 1,
                        items@[0] is Wildcard,
                        rest@ == items@.subrange(1, items@.len() as int),
                        tail_matches(rest@, segment@, 0) == tail_matches(rest@, segment@, k as int),
                    decreases segment@.len() - k,
                {
                    let tail = slice_subrange(segment, k, segment.len());
                    if Self::matches_bytes(rest, tail) {
                        return true;
                    }
                    k += 1;
                }
                let empty = slice_subrange(segment, k, segment.len());
                Self::matches_bytes(rest, empty)
            },
        }
    }
}

} // verus!
