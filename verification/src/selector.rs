//! The selector grammar: a compact path of tag/class/id match steps connected
//! by relation markers.
//!
//! A step starts with an optional sigil (`#` for an id, `.` for a class, a
//! bare name for a tag), runs to the earliest of the three delimiter
//! characters space, `.` and `#`, and hands the rest to the next step: a
//! space means a descendant, a space followed by `... ` means a descendant at
//! any depth, and a bare `.` or `#` refines the same element.

use vstd::prelude::*;

use crate::error::ScrapeError;
use crate::text::chars_of;
use crate::text::string_from_chars;
use crate::text::string_of_range;

verus! {

/// How one step of a selector chain picks its element.
#[derive(Clone, Copy, Debug, PartialEq, Eq, Structural)]
pub enum NodeKind {
    /// Matched by class (`.name`).
    Class,
    /// Matched by id (`#name`).
    Id,
    /// Matched by tag name (bare `name`).
    TagName,
}

/// How a step relates to the step after it.
#[derive(Debug)]
pub enum ChildRelation {
    /// The next step refines the same element (written `.name` or `#name`
    /// with no space).
    Same(Box<SelectorNode>),
    /// The next step matches a descendant (written after a space).
    Descendant(Box<SelectorNode>),
    /// The next step matches a descendant any number of levels down (written
    /// after a space and a `... ` marker).
    BroadDescendant(Box<SelectorNode>),
    /// The chain ends here.
    End,
}

/// One step of a selector chain, owning the rest of the chain.
#[derive(Debug)]
pub struct SelectorNode {
    pub kind: NodeKind,
    pub name: String,
    pub child: ChildRelation,
}

/// The delimiter characters that end a step's name.
pub open spec fn is_delim(c: char) -> bool {
    c == ' ' || c == '.' || c == '#'
}

/// The node kind that a leading character announces.
pub open spec fn sigil_kind(c: char) -> NodeKind {
    if c == '#' {
        NodeKind::Id
    } else if c == '.' {
        NodeKind::Class
    } else {
        NodeKind::TagName
    }
}

/// How many characters the sigil occupies.
pub open spec fn sigil_len(c: char) -> int {
    if c == '#' || c == '.' {
        1
    } else {
        0
    }
}

/// Whether `rest` carries the deep-descendant marker `" ... "` at `i`.
pub open spec fn broad_marker_at(rest: Seq<char>, i: int) -> bool {
    &&& i + 5 <= rest.len()
    &&& rest[i] == ' '
    &&& rest[i + 1] == '.'
    &&& rest[i + 2] == '.'
    &&& rest[i + 3] == '.'
    &&& rest[i + 4] == ' '
}

/// The selector grammar: `node` is the parse of the text `s`.
///
/// The step's name runs from the end of the sigil to the earliest delimiter
/// (the name itself holds no delimiter); the delimiter decides the relation
/// to the next step, which parses the remainder.
pub open spec fn parses_to(s: Seq<char>, node: SelectorNode) -> bool
    decreases node,
{
    if s.len() == 0 {
        false
    } else {
        let rest = s.skip(sigil_len(s[0]));
        let n = node.name@.len() as int;
        &&& node.kind == sigil_kind(s[0])
        &&& n <= rest.len()
        &&& node.name@ == rest.take(n)
        &&& (forall|j: int| 0 <= j < n ==> !is_delim(#[trigger] rest[j]))
        &&& match node.child {
            ChildRelation::End => n == rest.len(),
            ChildRelation::Same(c) => n < rest.len() && (rest[n] == '.' || rest[n] == '#')
                && parses_to(rest.skip(n), *c),
            ChildRelation::Descendant(c) => n < rest.len() && rest[n] == ' '
                && !broad_marker_at(rest, n) && parses_to(rest.skip(n + 1), *c),
            ChildRelation::BroadDescendant(c) => broad_marker_at(rest, n) && parses_to(
                rest.skip(n + 5),
                *c,
            ),
        }
    }
}

/// The sigil written for a node kind.
pub open spec fn sigil_of(kind: NodeKind) -> Seq<char> {
    match kind {
        NodeKind::Class => seq!['.'],
        NodeKind::Id => seq!['#'],
        NodeKind::TagName => Seq::empty(),
    }
}

/// The text that re-serializing a chain writes: each step's sigil and name,
/// then the marker of its relation to the next step.
pub open spec fn spec_describe(node: SelectorNode) -> Seq<char>
    decreases node,
{
    sigil_of(node.kind) + node.name@ + match node.child {
        ChildRelation::End => Seq::<char>::empty(),
        ChildRelation::Same(c) => spec_describe(*c),
        ChildRelation::Descendant(c) => seq![' '] + spec_describe(*c),
        ChildRelation::BroadDescendant(c) => seq![' ', '.', '.', '.', ' '] + spec_describe(*c),
    }
}

/// Structural equivalence of two chains: same length, same kinds, same names,
/// same relation kinds.
pub open spec fn node_eq(a: SelectorNode, b: SelectorNode) -> bool
    decreases a,
{
    &&& a.kind == b.kind
    &&& a.name@ == b.name@
    &&& match (a.child, b.child) {
        (ChildRelation::End, ChildRelation::End) => true,
        (ChildRelation::Same(c), ChildRelation::Same(d)) => node_eq(*c, *d),
        (ChildRelation::Descendant(c), ChildRelation::Descendant(d)) => node_eq(*c, *d),
        (ChildRelation::BroadDescendant(c), ChildRelation::BroadDescendant(d)) => node_eq(*c, *d),
        _ => false,
    }
}

/// Parsing loses nothing: re-serializing a parsed chain writes back the exact
/// input text.
pub proof fn lemma_describe_inverts_parse(s: Seq<char>, node: SelectorNode)
    requires
        parses_to(s, node),
    ensures
        spec_describe(node) == s,
    decreases node,
{
    let rest = s.skip(sigil_len(s[0]));
    let n = node.name@.len() as int;
    assert(sigil_of(node.kind) =~= s.take(sigil_len(s[0])));
    match node.child {
        ChildRelation::End => {
            assert(spec_describe(node) =~= s);
        },
        ChildRelation::Same(c) => {
            lemma_describe_inverts_parse(rest.skip(n), *c);
            assert(spec_describe(node) =~= s);
        },
        ChildRelation::Descendant(c) => {
            lemma_describe_inverts_parse(rest.skip(n + 1), *c);
            assert(spec_describe(node) =~= s);
        },
        ChildRelation::BroadDescendant(c) => {
            lemma_describe_inverts_parse(rest.skip(n + 5), *c);
            assert(spec_describe(node) =~= s);
        },
    }
}

/// The grammar is unambiguous: two parses of one text are structurally
/// equivalent, name for name.
pub proof fn lemma_parse_deterministic(s: Seq<char>, a: SelectorNode, b: SelectorNode)
    requires
        parses_to(s, a),
        parses_to(s, b),
    ensures
        node_eq(a, b),
    decreases a,
{
    let rest = s.skip(sigil_len(s[0]));
    let na = a.name@.len() as int;
    let nb = b.name@.len() as int;
    assert(na == nb) by {
        if na < nb {
            assert(!is_delim(rest[na]));
            assert(a.child is End ==> na == rest.len());
        } else if nb < na {
            assert(!is_delim(rest[nb]));
            assert(b.child is End ==> nb == rest.len());
        }
    }
    assert(a.name@ == b.name@);
    match (a.child, b.child) {
        (ChildRelation::End, ChildRelation::End) => {},
        (ChildRelation::Same(c), ChildRelation::Same(d)) => {
            lemma_parse_deterministic(rest.skip(na), *c, *d);
        },
        (ChildRelation::Descendant(c), ChildRelation::Descendant(d)) => {
            lemma_parse_deterministic(rest.skip(na + 1), *c, *d);
        },
        (ChildRelation::BroadDescendant(c), ChildRelation::BroadDescendant(d)) => {
            lemma_parse_deterministic(rest.skip(na + 5), *c, *d);
        },
        _ => {
            assert(false);
        },
    }
}

/// The texts that the grammar refuses: the empty text, and any text whose
/// last character is a space (a dangling separator, whose next step would be
/// empty).
pub open spec fn selector_malformed(s: Seq<char>) -> bool {
    s.len() == 0 || s.last() == ' '
}

/// Parses the chain starting at `from`, or reports that no parse exists.
#[verifier::rlimit(100)]
#[verifier::spinoff_prover]
fn parse_rec(v: &Vec<char>, from: usize) -> (r: Result<SelectorNode, ()>)
    requires
        from <= v@.len(),
    ensures
        r matches Ok(node) ==> parses_to(v@.skip(from as int), node),
        r is Err ==> forall|n: SelectorNode| !parses_to(v@.skip(from as int), n),
        r is Err <==> selector_malformed(v@.skip(from as int)),
    decreases v@.len() - from,
{
    let ghost s0 = v@.skip(from as int);
    let len = v.len();
    if from == len {
        return Err(());
    }
    let c0 = v[from];
    let kind: NodeKind;
    let p: usize;
    if c0 == '#' {
        kind = NodeKind::Id;
        p = from + 1;
    } else if c0 == '.' {
        kind = NodeKind::Class;
        p = from + 1;
    } else {
        kind = NodeKind::TagName;
        p = from;
    }
    let ghost rest = v@.skip(p as int);
    proof {
        assert(s0[0] == v@[from as int]);
        assert(kind == sigil_kind(s0[0]));
        assert(p == from + sigil_len(s0[0]));
        assert(rest =~= s0.skip(sigil_len(s0[0])));
    }
    let mut i: usize = p;
    while i < len && !(v[i] == ' ' || v[i] == '.' || v[i] == '#')
        invariant
            p <= i <= len,
            len == v@.len(),
            forall|j: int| p <= j < i ==> !is_delim(#[trigger] v@[j]),
        decreases len - i,
    {
        i = i + 1;
    }
    let name = string_of_range(v, p, i);
    let ghost nlen = (i - p) as int;
    proof {
        assert(name@ =~= rest.take(nlen));
        assert forall|j: int| 0 <= j < nlen implies !is_delim(#[trigger] rest[j]) by {
            assert(rest[j] == v@[p + j]);
        }
    }
    if i == len {
        proof {
            assert(s0.last() == v@[len - 1]);
            if p < len {
                assert(!is_delim(v@[len - 1]));
            } else {
                assert(s0.last() == v@[from as int]);
            }
        }
        let node = SelectorNode { kind, name, child: ChildRelation::End };
        return Ok(node);
    }
    // v[i] is the earliest delimiter.
    proof {
        assert(is_delim(v@[i as int]));
        assert(rest[nlen] == v@[i as int]);
        assert(s0.last() == v@[len - 1]);
    }
    if v[i] == ' ' {
        let broad = len - i > 4 && v[i + 1] == '.' && v[i + 2] == '.' && v[i + 3] == '.' && v[i + 4]
            == ' ';
        proof {
            assert(broad == broad_marker_at(rest, nlen)) by {
                if nlen + 5 <= rest.len() {
                    assert(rest[nlen + 1] == v@[i + 1]);
                    assert(rest[nlen + 2] == v@[i + 2]);
                    assert(rest[nlen + 3] == v@[i + 3]);
                    assert(rest[nlen + 4] == v@[i + 4]);
                }
            }
        }
        if broad {
            match parse_rec(v, i + 5) {
                Ok(c) => {
                    proof {
                        assert(rest.skip(nlen + 5) =~= v@.skip(i + 5 as int));
                        assert(v@.skip(i + 5 as int).last() == v@[len - 1]);
                    }
                    let node = SelectorNode {
                        kind,
                        name,
                        child: ChildRelation::BroadDescendant(Box::new(c)),
                    };
                    return Ok(node);
                },
                Err(_) => {
                    proof {
                        assert(rest.skip(nlen + 5) =~= v@.skip(i + 5 as int));
                        if i + 5 == len {
                            assert(s0.last() == v@[i + 4]);
                        } else {
                            assert(v@.skip(i + 5 as int).last() == v@[len - 1]);
                        }
                        assert forall|n: SelectorNode| !parses_to(s0, n) by {
                            if parses_to(s0, n) {
                                lemma_name_split(v@, from as int, p as int, i as int, n);
                            }
                        }
                    }
                    return Err(());
                },
            }
        } else {
            match parse_rec(v, i + 1) {
                Ok(c) => {
                    proof {
                        assert(rest.skip(nlen + 1) =~= v@.skip(i + 1 as int));
                        assert(v@.skip(i + 1 as int).last() == v@[len - 1]);
                    }
                    let node = SelectorNode {
                        kind,
                        name,
                        child: ChildRelation::Descendant(Box::new(c)),
                    };
                    return Ok(node);
                },
                Err(_) => {
                    proof {
                        assert(rest.skip(nlen + 1) =~= v@.skip(i + 1 as int));
                        if i + 1 == len {
                            assert(s0.last() == v@[i as int]);
                        } else {
                            assert(v@.skip(i + 1 as int).last() == v@[len - 1]);
                        }
                        assert forall|n: SelectorNode| !parses_to(s0, n) by {
                            if parses_to(s0, n) {
                                lemma_name_split(v@, from as int, p as int, i as int, n);
                            }
                        }
                    }
                    return Err(());
                },
            }
        }
    } else {
        proof {
            if i == from {
                assert(v@[i as int] == s0[0]);
                assert(false);
            }
        }
        match parse_rec(v, i) {
            Ok(c) => {
                proof {
                    assert(rest.skip(nlen) =~= v@.skip(i as int));
                    assert(v@.skip(i as int).last() == v@[len - 1]);
                }
                let node = SelectorNode { kind, name, child: ChildRelation::Same(Box::new(c)) };
                return Ok(node);
            },
            Err(_) => {
                proof {
                    assert(rest.skip(nlen) =~= v@.skip(i as int));
                    assert(v@.skip(i as int).last() == v@[len - 1]);
                    assert forall|n: SelectorNode| !parses_to(s0, n) by {
                        if parses_to(s0, n) {
                            lemma_name_split(v@, from as int, p as int, i as int, n);
                        }
                    }
                }
                return Err(());
            },
        }
    }
}

/// Any parse of the text starting at `from` splits its name exactly at the
/// earliest delimiter `i`, so its child parses the remainder after `i`'s
/// relation marker.
proof fn lemma_name_split(v: Seq<char>, from: int, p: int, i: int, n: SelectorNode)
    requires
        0 <= from <= p <= i < v.len(),
        p == from + sigil_len(v[from]),
        forall|j: int| p <= j < i ==> !is_delim(#[trigger] v[j]),
        is_delim(v[i]),
        parses_to(v.skip(from), n),
    ensures
        n.name@.len() == i - p,
        n.child matches ChildRelation::Same(c) ==> (v[i] == '.' || v[i] == '#') && parses_to(
            v.skip(i),
            *c,
        ),
        n.child matches ChildRelation::Descendant(c) ==> v[i] == ' ' && !broad_marker_at(
            v.skip(p),
            i - p,
        ) && parses_to(v.skip(i + 1), *c),
        n.child matches ChildRelation::BroadDescendant(c) ==> broad_marker_at(v.skip(p), i - p)
            && parses_to(v.skip(i + 5), *c),
        !(n.child is End),
{
    let s0 = v.skip(from);
    let rest = s0.skip(sigil_len(s0[0]));
    assert(s0[0] == v[from]);
    assert(rest =~= v.skip(p));
    let nlen = n.name@.len() as int;
    assert(nlen == i - p) by {
        if nlen < i - p {
            assert(is_delim(rest[nlen]) || n.child is End);
            assert(rest[nlen] == v[p + nlen]);
            assert(n.child is End ==> nlen == rest.len());
        } else if nlen > i - p {
            assert(!is_delim(rest[i - p]));
            assert(rest[i - p] == v[i]);
        }
    }
    assert(rest[nlen] == v[i]);
    if n.child is End {
        assert(nlen == rest.len());
        assert(false);
    }
    match n.child {
        ChildRelation::Same(c) => {
            assert(rest.skip(nlen) =~= v.skip(i));
        },
        ChildRelation::Descendant(c) => {
            assert(rest.skip(nlen + 1) =~= v.skip(i + 1));
        },
        ChildRelation::BroadDescendant(c) => {
            assert(rest.skip(nlen + 5) =~= v.skip(i + 5));
        },
        ChildRelation::End => {},
    }
}

/// Parses selector text into a chain.
///
/// Succeeds exactly on the texts that the grammar derives; in particular, a
/// nonempty text with no delimiter after its sigil parses to a single node
/// whose relation is the chain terminus.
pub fn parse_selector(text: &str) -> (r: Result<SelectorNode, ScrapeError>)
    ensures
        r matches Ok(node) ==> parses_to(text@, node),
        r is Err ==> forall|n: SelectorNode| !parses_to(text@, n),
        r is Err <==> selector_malformed(text@),
        r matches Err(e) ==> e.kind == crate::error::ErrorKind::Grammar,
        (text@.len() > 0 && (forall|j: int|
            0 <= j < text@.skip(sigil_len(text@[0])).len() ==> !is_delim(
                #[trigger] text@.skip(sigil_len(text@[0]))[j],
            ))) ==> (r matches Ok(node) && node.child is End && node.kind == sigil_kind(text@[0])
            && node.name@ == text@.skip(sigil_len(text@[0]))),
{
    let v = chars_of(text);
    proof {
        assert(v@.skip(0) =~= text@);
    }
    let r = parse_rec(&v, 0);
    proof {
        let s = text@;
        if s.len() > 0 && (forall|j: int|
            0 <= j < s.skip(sigil_len(s[0])).len() ==> !is_delim(#[trigger] s.skip(sigil_len(s[0]))[j])) {
            let rest = s.skip(sigil_len(s[0]));
            assert(!selector_malformed(s)) by {
                if rest.len() > 0 {
                    assert(s.last() == rest.last());
                    assert(!is_delim(rest[rest.len() - 1]));
                } else {
                    assert(s.last() == s[0]);
                }
            }
            match &r {
                Ok(node) => {
                    let n = node.name@.len() as int;
                    assert(node.child is End) by {
                        if !(node.child is End) {
                            assert(is_delim(rest[n]));
                        }
                    }
                    assert(node.name@ =~= rest);
                },
                Err(_) => {
                    assert(false);
                },
            }
        }
    }
    match r {
        Ok(node) => Ok(node),
        Err(_) => Err(ScrapeError::grammar_error("malformed selector")),
    }
}

/// Appends the serialization of the chain at `node` to `out`.
#[verifier::rlimit(60)]
fn describe_rec(node: &SelectorNode, out: &mut Vec<char>)
    ensures
        final(out)@ == old(out)@ + spec_describe(*node),
    decreases *node,
{
    match node.kind {
        NodeKind::Class => {
            out.push('.');
        },
        NodeKind::Id => {
            out.push('#');
        },
        NodeKind::TagName => {},
    }
    let name: &str = node.name.as_str();
    let n: usize = name.unicode_len();
    let mut i: usize = 0;
    while i < n
        invariant
            0 <= i <= n,
            n == name@.len(),
            name@ == node.name@,
            out@ == old(out)@ + sigil_of(node.kind) + name@.take(i as int),
        decreases n - i,
    {
        out.push(name.get_char(i));
        proof {
            assert(old(out)@ + sigil_of(node.kind) + name@.take(i + 1 as int) =~= (old(out)@
                + sigil_of(node.kind) + name@.take(i as int)).push(name@[i as int]));
        }
        i = i + 1;
    }
    proof {
        assert(name@.take(n as int) =~= name@);
    }
    match &node.child {
        ChildRelation::End => {
            proof {
                assert(out@ =~= old(out)@ + spec_describe(*node));
            }
        },
        ChildRelation::Same(c) => {
            describe_rec(c, out);
            proof {
                assert(out@ =~= old(out)@ + spec_describe(*node));
            }
        },
        ChildRelation::Descendant(c) => {
            out.push(' ');
            describe_rec(c, out);
            proof {
                assert(out@ =~= old(out)@ + spec_describe(*node));
            }
        },
        ChildRelation::BroadDescendant(c) => {
            out.push(' ');
            out.push('.');
            out.push('.');
            out.push('.');
            out.push(' ');
            describe_rec(c, out);
            proof {
                assert(out@ =~= old(out)@ + spec_describe(*node));
            }
        },
    }
}

impl SelectorNode {
    /// Re-serializes the chain: each step's sigil and name, then its relation
    /// marker.
    pub fn describe(&self) -> (r: String)
        ensures
            r@ == spec_describe(*self),
    {
        let mut out: Vec<char> = Vec::new();
        describe_rec(self, &mut out);
        string_from_chars(&out)
    }
}

/// Round trip: parse a text, re-serialize the chain, parse again - the second
/// chain is structurally equivalent to the first (and the re-serialized text
/// is the original text itself).
pub proof fn lemma_selector_round_trip(s: Seq<char>, a: SelectorNode, b: SelectorNode)
    requires
        parses_to(s, a),
        parses_to(spec_describe(a), b),
    ensures
        spec_describe(a) == s,
        node_eq(a, b),
{
    lemma_describe_inverts_parse(s, a);
    lemma_parse_deterministic(s, a, b);
}


} // verus!
