use vstd::prelude::*;
use vstd::string::StringExecFns;
use crate::pattern::ComplexWildcard;
use crate::route::{Item, Segment, SveltePathFinder};

verus! {

/// The parts of a mixed segment written back: literal text as it is, each
/// parameter as `*`.
pub open spec fn render_parts(parts: Seq<ComplexWildcard>) -> Seq<char>
    decreases parts.len(),
{
    if parts.len() == 0 {
        Seq::empty()
    } else {
        render_parts(parts.drop_last()) + match parts.last() {
            ComplexWildcard::Static(x) => x@,
            ComplexWildcard::Wildcard => seq!['*'],
        }
    }
}

/// How a node's own segment is written: `/text`, `/*`, `(/*)`, `/**`, or `/`
/// and the parts of a mixed segment.
pub open spec fn render_segment(s: Segment) -> Seq<char> {
    match s {
        Segment::Static(x) => seq!['/'] + x@,
        Segment::Wildcard => seq!['/', '*'],
        Segment::OptionalWildcard => seq!['(', '/', '*', ')'],
        Segment::RepeatedWildcard => seq!['/', '*', '*'],
        Segment::ComplexWildcard(parts) => seq!['/'] + render_parts(parts@),
    }
}

/// A node written as its segment followed by what is below it.
pub open spec fn render_item(i: Item) -> Seq<char>
    decreases i, 1int, 0int,
{
    render_segment(i.segment) + render_children(i.children@, i.terminating, i.requires_login)
}

/// The first `n` nodes of `items`, written and separated by `, `.
pub open spec fn render_joined(items: Seq<Item>, n: int) -> Seq<char>
    decreases items, 0int, if n > 0 { n } else { 0 },
{
    if n <= 0 || n > items.len() {
        Seq::empty()
    } else if n == 1 {
        render_item(items[0])
    } else {
        render_joined(items, n - 1) + seq![',', ' '] + render_item(items[n - 1])
    }
}

/// What follows a node's segment: a ` (terminating)` note (with `, login`
/// when the route requires one) where a route ends at a node with children,
/// then the single child written on, or all children in ` { ... }`; a leaf
/// that requires a login gets ` (login)`.
pub open spec fn render_children(items: Seq<Item>, terminating: bool, requires_login: bool) -> Seq<char>
    decreases items, 0int, items.len() + 1,
{
    if items.len() > 0 {
        let note = if terminating {
            seq![' ', '(', 't', 'e', 'r', 'm', 'i', 'n', 'a', 't', 'i', 'n', 'g'] + (if requires_login {
                seq![',', ' ', 'l', 'o', 'g', 'i', 'n']
            } else {
                Seq::empty()
            }) + seq![')']
        } else {
            Seq::empty()
        };
        if !terminating && items.len() == 1 {
            note + render_item(items[0])
        } else {
            note + seq![' ', '{', ' '] + render_joined(items, items.len() as int) + seq![' ', '}']
        }
    } else if requires_login {
        seq![' ', '(', 'l', 'o', 'g', 'i', 'n', ')']
    } else {
        Seq::empty()
    }
}

impl ComplexWildcard {
    /// The parts written back, each parameter as `*`.
    pub fn render(items: &[Self]) -> (r: String)
        ensures
            r@ == render_parts(items@),
    {
        let mut out = String::new();
        let mut i: usize = 0;
        while i < items.len()
            invariant
                i <= items@.len(),
                out@ == render_parts(items@.subrange(0, i as int)),
            decreases items@.len() - i,
        {
            proof {
                let next = items@.subrange(0, i + 1);
                assert(next.drop_last() =~= items@.subrange(0, i as int));
                assert(next.last() == items@[i as int]);
            }
            match &items[i] {
                ComplexWildcard::Static(x) => out.append(x.as_str()),
                ComplexWildcard::Wildcard => {
                    proof {
                        reveal_strlit("*");
                    }
                    out.append("*");
                },
            }
            i += 1;
        }
        assert(items@.subrange(0, items@.len() as int) =~= items@);
        out
    }
}

/// Appends what follows a node's segment to `out`.
fn render_children_into(out: &mut String, items: &Vec<Item>, terminating: bool, requires_login: bool)
    ensures
        final(out)@ == old(out)@ + render_children(items@, terminating, requires_login),
    decreases items@, 0int, items@.len() + 1,
{
    proof {
        reveal_strlit(" (terminating");
        reveal_strlit(", login");
        reveal_strlit(")");
        reveal_strlit(" { ");
        reveal_strlit(", ");
        reveal_strlit(" }");
        reveal_strlit(" (login)");
    }
    if items.len() > 0 {
        if terminating {
            out.append(" (terminating");
            if requires_login {
                out.append(", login");
            }
            out.append(")");
        }
        let ghost with_note = out@;
        if !terminating && items.len() == 1 {
            render_item_into(out, &items[0]);
        } else {
            out.append(" { ");
            let ghost opened = out@;
            let mut i: usize = 0;
            while i < items.len()
                invariant
                    i <= items@.len(),
                    out@ == opened + render_joined(items@, i as int),
                decreases items@.len() - i,
            {
                let ghost before = out@;
                if i > 0 {
                    out.append(", ");
                }
                render_item_into(out, &items[i]);
                proof {
                    reveal_strlit(", ");
                    if i > 0 {
                        assert(out@ =~= opened + (render_joined(items@, i as int) + seq![',', ' ']
                            + render_item(items@[i as int])));
                    } else {
                        assert(out@ =~= opened + render_item(items@[0]));
                    }
                }
                i += 1;
            }
            out.append(" }");
        }
    } else if requires_login {
        out.append(" (login)");
    }
}

/// Appends a node and what is below it to `out`.
fn render_item_into(out: &mut String, item: &Item)
    ensures
        final(out)@ == old(out)@ + render_item(*item),
    decreases *item, 1int, 0int,
{
    let seg = item.segment.to_pattern_string();
    out.append(seg.as_str());
    render_children_into(out, &item.children, item.terminating, item.requires_login);
}

impl Segment {
    /// The segment alone, written in pattern form.
    pub fn to_pattern_string(&self) -> (r: String)
        ensures
            r@ == render_segment(*self),
    {
        proof {
            reveal_strlit("/");
            reveal_strlit("/*");
            reveal_strlit("(/*)");
            reveal_strlit("/**");
        }
        let mut out = String::new();
        match self {
            Segment::Static(x) => {
                out.append("/");
                out.append(x.as_str());
            },
            Segment::Wildcard => out.append("/*"),
            Segment::OptionalWildcard => out.append("(/*)"),
            Segment::RepeatedWildcard => out.append("/**"),
            Segment::ComplexWildcard(parts) => {
                out.append("/");
                let p = ComplexWildcard::render(parts.as_slice());
                out.append(p.as_str());
            },
        }
        out
    }
}

impl Item {
    /// The node and everything below it, written in pattern form on one line.
    pub fn to_pattern_string(&self) -> (r: String)
        ensures
            r@ == render_item(*self),
    {
        let mut out = String::new();
        render_item_into(&mut out, self);
        out
    }

    /// What follows a node's segment, written in pattern form on one line.
    pub fn render_children(items: &Vec<Item>, terminating: bool, requires_login: bool) -> (r: String)
        ensures
            r@ == render_children(items@, terminating, requires_login),
    {
        let mut out = String::new();
        render_children_into(&mut out, items, terminating, requires_login);
        out
    }
}

impl SveltePathFinder {
    /// The whole tree written in pattern form on one line, from `/`.
    pub fn to_pattern_string(&self) -> (r: String)
        ensures
            r@ == seq!['/'] + render_children(self.children@, self.terminating, self.requires_login),
    {
        let mut out = String::new();
        proof {
            reveal_strlit("/");
        }
        out.append("/");
        render_children_into(&mut out, &self.children, self.terminating, self.requires_login);
        out
    }
}

} // verus!
