//! Aligns a query's fixed text against a [`ShapeModel`], decomposing it into
//! the shape's static text and captures of its placeholders.
//!
//! The shape is flattened into atoms (one per static character, one per
//! placeholder); a state is a pair of cursors (query symbols consumed, atoms
//! produced). Every transition advances one cursor or both, so the states
//! form a DAG solved by one reverse sweep. Placeholders are approximated by
//! their charsets and may produce the empty string, so the result is a
//! superset of the true decompositions: a rejection proves no match.

use vstd::prelude::*;
use vstd::arithmetic::power::lemma_pow_increases;
use vstd::arithmetic::power::lemma_pow_positive;
use vstd::arithmetic::power::pow;

use crate::parsing_spec::RuleIdx;
use crate::parsing_spec::SubRule;
use crate::prefilter::max_char;
use crate::prefilter::shape::Placeholder;
use crate::prefilter::shape::part_can_be_empty;
use crate::prefilter::shape::ShapeModel;
use crate::prefilter::shape::ShapePart;
use crate::search::SymbolicChar;

verus! {

/// One symbol-producing unit of a flattened shape.
#[derive(Debug, Clone, Copy)]
pub enum Atom {
    /// A static character (by its code point), reproduced verbatim.
    Text(u32),
    /// The placeholder at this part index.
    Rule(usize),
}

/// One way the query's fixed text lines up with a shape.
#[derive(Debug)]
pub struct Alignment {
    pub fragments: Vec<Fragment>,
}

/// A piece of a query, attributed to the part of the shape that produced it.
#[derive(Debug)]
pub enum Fragment {
    /// Query text matched against the shape's static text, and the wildcards
    /// between.
    Static(Vec<SymbolicChar>),
    /// Query text matched against a placeholder: a capture of that rule.
    Capture { sub_rule: SubRule, contents: Vec<SymbolicChar> },
}

/// The result of aligning a query against a shape.
#[derive(Debug)]
pub enum Outcome {
    /// No message of this shape can match the query.
    Rejected,
    /// A superset of the true decompositions; the engine must confirm.
    Approximate(Vec<Alignment>),
    /// No conclusion (the budget was exhausted, or the query is empty).
    Unknown,
}

/// Caps the work the enumeration may do.
#[derive(Debug, Clone, Copy)]
pub struct Budget {
    /// Maximum decompositions to materialize across all states.
    pub max_partial_alignments: usize,
    /// Maximum decompositions to return.
    pub max_alignments: usize,
}

impl Default for Budget {
    fn default() -> (r: Budget)
        ensures
            r.max_partial_alignments == 500_000,
            r.max_alignments == 4_096,
    {
        Budget { max_partial_alignments: 500_000, max_alignments: 4_096 }
    }
}

/// The symbols of a fragment.
pub open spec fn fragment_contents(f: Fragment) -> Seq<SymbolicChar> {
    match f {
        Fragment::Static(contents) => contents@,
        Fragment::Capture { contents, .. } => contents@,
    }
}

/// What identifies a fragment: the capture's rule and sub-rule (none for
/// static text), and its symbols.
pub open spec fn fragment_key(f: Fragment) -> (Option<(RuleIdx, u16)>, Seq<SymbolicChar>) {
    match f {
        Fragment::Static(contents) => (None, contents@),
        Fragment::Capture { sub_rule, contents } => (Some((sub_rule.root_rule_idx, sub_rule.id)), contents@),
    }
}

/// Two decompositions with the same fragments.
pub open spec fn same_fragments(x: Seq<Fragment>, y: Seq<Fragment>) -> bool {
    x.len() == y.len() && forall|i: int| 0 <= i < x.len() ==> fragment_key(#[trigger] x[i]) == fragment_key(y[i])
}

/// The keys of a decomposition's fragments, in order.
pub open spec fn keys_of(d: Seq<Fragment>) -> Seq<(Option<(RuleIdx, u16)>, Seq<SymbolicChar>)> {
    d.map_values(|f: Fragment| fragment_key(f))
}

/// The keys of a decomposition after `symbol` is put in front: merged into
/// a leading static fragment (where a wildcard before a wildcard adds
/// nothing), or as a static fragment of its own.
pub open spec fn prepended(symbol: SymbolicChar, ks: Seq<(Option<(RuleIdx, u16)>, Seq<SymbolicChar>)>) -> Seq<
    (Option<(RuleIdx, u16)>, Seq<SymbolicChar>),
> {
    if ks.len() > 0 && ks[0].0 is None {
        let c = ks[0].1;
        let merged = if symbol == SymbolicChar::GlobStar && c.len() > 0 && c[0] == SymbolicChar::GlobStar {
            c
        } else {
            seq![symbol] + c
        };
        seq![(None::<(RuleIdx, u16)>, merged)] + ks.drop_first()
    } else {
        seq![(None::<(RuleIdx, u16)>, seq![symbol])] + ks
    }
}

/// The keys of a decomposition that starts with a capture of `contents` by
/// `sub_rule`, followed by one with the keys `ks`.
pub open spec fn captured_first(
    sub_rule: SubRule,
    contents: Seq<SymbolicChar>,
    ks: Seq<(Option<(RuleIdx, u16)>, Seq<SymbolicChar>)>,
) -> Seq<(Option<(RuleIdx, u16)>, Seq<SymbolicChar>)> {
    seq![(Some((sub_rule.root_rule_idx, sub_rule.id)), contents)] + ks
}

/// `ks` are the keys of one of `tails`, with `symbol` put in front when
/// there is one.
pub open spec fn from_tails(symbol: Option<SymbolicChar>, ks: Seq<(Option<(RuleIdx, u16)>, Seq<SymbolicChar>)>, tails: Seq<Vec<Fragment>>) -> bool {
    exists|m: int|
        0 <= m < tails.len() && ks == match symbol {
            Some(x) => prepended(x, keys_of(#[trigger] tails[m]@)),
            None => keys_of(#[trigger] tails[m]@),
        }
}

/// `ks` are the keys of one of `tails` after a capture of `contents` by one
/// of `alternatives`.
#[verifier::opaque]
pub open spec fn from_captures(
    alternatives: Seq<SubRule>,
    contents: Seq<SymbolicChar>,
    ks: Seq<(Option<(RuleIdx, u16)>, Seq<SymbolicChar>)>,
    tails: Seq<Vec<Fragment>>,
) -> bool {
    exists|m: int, j: int|
        0 <= m < tails.len() && 0 <= j < alternatives.len() && ks == captured_first(
            #[trigger] alternatives[j],
            contents,
            keys_of(#[trigger] tails[m]@),
        )
}

/// Adding a capture of one of `tails` keeps every decomposition added since
/// `start` one of `tails` after a capture.
proof fn lemma_capture_sources(
    before: Seq<Vec<Fragment>>,
    after: Seq<Vec<Fragment>>,
    start: int,
    item_keys: Seq<(Option<(RuleIdx, u16)>, Seq<SymbolicChar>)>,
    alternatives: Seq<SubRule>,
    contents: Seq<SymbolicChar>,
    tails: Seq<Vec<Fragment>>,
    i: int,
    j: int,
)
    requires
        0 <= start <= before.len(),
        after == before || (after == before.push(after[before.len() as int]) && keys_of(after[before.len() as int]@) == item_keys),
        0 <= i < tails.len(),
        0 <= j < alternatives.len(),
        item_keys == captured_first(alternatives[j], contents, keys_of(tails[i]@)),
        forall|x: int| start <= x < before.len() ==> from_captures(alternatives, contents, keys_of(#[trigger] before[x]@), tails),
    ensures
        forall|x: int| start <= x < after.len() ==> from_captures(alternatives, contents, keys_of(#[trigger] after[x]@), tails),
{
    reveal(from_captures);
    assert forall|x: int| start <= x < after.len() implies from_captures(alternatives, contents, keys_of(#[trigger] after[x]@), tails) by {
        if x < before.len() {
            assert(after[x] == before[x]);
        } else {
            assert(keys_of(after[x]@) == captured_first(alternatives[j], contents, keys_of(tails[i]@)));
        }
    }
}

/// More tails leave every decomposition one of them after a capture.
proof fn lemma_capture_sources_widen(
    list: Seq<Vec<Fragment>>,
    start: int,
    alternatives: Seq<SubRule>,
    contents: Seq<SymbolicChar>,
    t1: Seq<Vec<Fragment>>,
    t2: Seq<Vec<Fragment>>,
)
    requires
        t1.len() <= t2.len(),
        forall|m: int| 0 <= m < t1.len() ==> #[trigger] t2[m] == t1[m],
        forall|x: int| start <= x < list.len() ==> from_captures(alternatives, contents, keys_of(#[trigger] list[x]@), t1),
    ensures
        forall|x: int| start <= x < list.len() ==> from_captures(alternatives, contents, keys_of(#[trigger] list[x]@), t2),
{
    reveal(from_captures);
    assert forall|x: int| start <= x < list.len() implies from_captures(alternatives, contents, keys_of(#[trigger] list[x]@), t2) by {
        let (m, j2) = choose|m: int, j2: int|
            0 <= m < t1.len() && 0 <= j2 < alternatives.len() && keys_of(list[x]@) == captured_first(
                #[trigger] alternatives[j2],
                contents,
                keys_of(#[trigger] t1[m]@),
            );
        assert(t2[m] == t1[m]);
    }
}

/// Some decomposition of `list` has the keys `ks`.
pub open spec fn listed(list: Seq<Vec<Fragment>>, ks: Seq<(Option<(RuleIdx, u16)>, Seq<SymbolicChar>)>) -> bool {
    exists|i: int| 0 <= i < list.len() && keys_of(#[trigger] list[i]@) == ks
}

/// Same fragments means the same keys.
proof fn lemma_same_keys(x: Seq<Fragment>, y: Seq<Fragment>)
    ensures
        same_fragments(x, y) <==> keys_of(x) == keys_of(y),
{
    if keys_of(x) == keys_of(y) {
        assert(keys_of(x).len() == x.len() && keys_of(y).len() == y.len());
        assert forall|i: int| 0 <= i < x.len() implies fragment_key(#[trigger] x[i]) == fragment_key(y[i]) by {
            assert(keys_of(x)[i] == keys_of(y)[i]);
        }
    }
    if same_fragments(x, y) {
        assert(keys_of(x) =~= keys_of(y));
    }
}

/// A list keeps what it listed when it grows by at most one element.
proof fn lemma_listed_grows(
    l: Seq<Vec<Fragment>>,
    l2: Seq<Vec<Fragment>>,
    ks: Seq<(Option<(RuleIdx, u16)>, Seq<SymbolicChar>)>,
)
    requires
        listed(l, ks),
        l2.len() >= l.len(),
        l2.subrange(0, l.len() as int) == l,
    ensures
        listed(l2, ks),
{
    let i = choose|i: int| 0 <= i < l.len() && keys_of(#[trigger] l[i]@) == ks;
    assert(l2.subrange(0, l.len() as int)[i] == l2[i]);
}

/// The symbols of all fragments, in order.
pub open spec fn flat(frags: Seq<Fragment>) -> Seq<SymbolicChar>
    decreases frags.len(),
{
    if frags.len() == 0 {
        Seq::empty()
    } else {
        fragment_contents(frags[0]) + flat(frags.drop_first())
    }
}

/// The literals of `s`, wildcards dropped.
pub open spec fn literals(s: Seq<SymbolicChar>) -> Seq<SymbolicChar>
    decreases s.len(),
{
    if s.len() == 0 {
        Seq::empty()
    } else if s.last() is Literal {
        literals(s.drop_last()).push(s.last())
    } else {
        literals(s.drop_last())
    }
}

/// `x` names the same capture as `y`.
pub open spec fn same_capture(x: SubRule, y: SubRule) -> bool {
    &&& x.root_rule_idx == y.root_rule_idx
    &&& x.id == y.id
    &&& x.fully_qualified_name@ == y.fully_qualified_name@
}

/// A capture of `contents` by one of the alternatives of the placeholder at
/// part `p`: nonempty, with a literal, and every symbol admitted.
pub open spec fn captured_at(parts: Seq<ShapePart>, p: int, sub_rule: SubRule, contents: Seq<SymbolicChar>) -> bool {
    &&& 0 <= p < parts.len()
    &&& parts[p] is Placeholder
    &&& exists|j: int|
        0 <= j < parts[p]->Placeholder_0.alternatives@.len() && same_capture(
            sub_rule,
            #[trigger] parts[p]->Placeholder_0.alternatives@[j],
        )
    &&& literals(contents).len() > 0
    &&& forall|k: int| 0 <= k < contents.len() ==> admits(parts, p, #[trigger] contents[k])
}

/// Static text is always fine; a capture must be one of a placeholder.
pub open spec fn valid_fragment(parts: Seq<ShapePart>, f: Fragment) -> bool {
    match f {
        Fragment::Static(_) => true,
        Fragment::Capture { sub_rule, contents } => exists|p: int| #[trigger]
            captured_at(parts, p, sub_rule, contents@),
    }
}

/// A decomposition whose literals are `target`, made of valid fragments.
pub open spec fn good(parts: Seq<ShapePart>, target: Seq<SymbolicChar>, frags: Seq<Fragment>) -> bool {
    &&& literals(flat(frags)) == target
    &&& forall|i: int| 0 <= i < frags.len() ==> valid_fragment(parts, #[trigger] frags[i])
}

/// No decomposition listed twice.
pub open spec fn distinct(list: Seq<Vec<Fragment>>) -> bool {
    forall|i: int, j: int| 0 <= i < j < list.len() ==> !same_fragments(#[trigger] list[i]@, #[trigger] list[j]@)
}

/// Every placeholder resolves to at least one sub-rule.
pub open spec fn has_alternatives(parts: Seq<ShapePart>) -> bool {
    forall|p: int| 0 <= p < parts.len() ==> (#[trigger] parts[p] matches ShapePart::Placeholder(ph) ==> ph.alternatives@.len() > 0)
}

/// One atom per character.
pub open spec fn chars_atoms(s: Seq<char>) -> Seq<Atom>
    decreases s.len(),
{
    if s.len() == 0 {
        Seq::empty()
    } else {
        chars_atoms(s.drop_last()).push(Atom::Text(s.last() as u32))
    }
}

proof fn lemma_push_after_concat(base: Seq<Atom>, pre: Seq<Atom>, atom: Atom)
    ensures
        (base + pre).push(atom) == base + pre.push(atom),
{
    assert((base + pre).push(atom) =~= base + pre.push(atom));
}

proof fn lemma_chars_atoms_step(s: Seq<char>, k: int)
    requires
        0 <= k < s.len(),
    ensures
        chars_atoms(s.subrange(0, k + 1)) == chars_atoms(s.subrange(0, k)).push(Atom::Text(s[k] as u32)),
{
    assert(s.subrange(0, k + 1).drop_last() =~= s.subrange(0, k));
}

/// The atoms of one part.
pub open spec fn part_atoms(part: ShapePart, index: int) -> Seq<Atom> {
    match part {
        ShapePart::Static(text) => chars_atoms(text@),
        ShapePart::Placeholder(_) => seq![Atom::Rule(index as usize)],
    }
}

/// The atoms of a shape, part by part.
pub open spec fn atoms_of(parts: Seq<ShapePart>) -> Seq<Atom>
    decreases parts.len(),
{
    if parts.len() == 0 {
        Seq::empty()
    } else {
        atoms_of(parts.drop_last()) + part_atoms(parts.last(), parts.len() - 1)
    }
}

/// `symbols` with each run of consecutive wildcards reduced to one.
pub open spec fn collapsed(symbols: Seq<SymbolicChar>) -> Seq<SymbolicChar>
    decreases symbols.len(),
{
    if symbols.len() == 0 {
        Seq::empty()
    } else {
        let init = collapsed(symbols.drop_last());
        if symbols.last() == SymbolicChar::GlobStar && init.len() > 0 && init.last() == SymbolicChar::GlobStar {
            init
        } else {
            init.push(symbols.last())
        }
    }
}

/// Whether the placeholder at part `part` can emit the symbol: any
/// wildcard, and the literals of its charset.
pub open spec fn admits(parts: Seq<ShapePart>, part: int, symbol: SymbolicChar) -> bool {
    match symbol {
        SymbolicChar::GlobStar => true,
        SymbolicChar::Literal(c) => parts[part] matches ShapePart::Placeholder(p) && p.charset.has(c as int),
    }
}

/// The longest block of symbols from `q` that the placeholder at `part` can
/// emit.
pub open spec fn max_capture(parts: Seq<ShapePart>, part: int, symbols: Seq<SymbolicChar>, q: int) -> int
    decreases symbols.len() - q,
{
    if q < 0 || q >= symbols.len() || !admits(parts, part, symbols[q]) {
        0
    } else {
        1 + max_capture(parts, part, symbols, q + 1)
    }
}

/// Whether every atom from `a` on is a placeholder (each may emit nothing).
pub open spec fn can_stop(atoms: Seq<Atom>, a: int) -> bool {
    forall|i: int| a <= i < atoms.len() ==> (#[trigger] atoms[i]) is Rule
}

/// The query is consumed and the shape may stop here.
pub open spec fn accepting(symbols: Seq<SymbolicChar>, atoms: Seq<Atom>, anchored: bool, q: int, a: int) -> bool {
    q == symbols.len() && (!anchored || can_stop(atoms, a))
}

/// Whether from the state `(q, a)` the rest of the query can be consumed
/// while the shape produces its atoms from `a` on.
pub open spec fn reach(
    parts: Seq<ShapePart>,
    symbols: Seq<SymbolicChar>,
    atoms: Seq<Atom>,
    anchored: bool,
    q: int,
    a: int,
) -> bool
    decreases 2 * (atoms.len() - a) + 1, symbols.len() - q,
{
    if q < 0 || a < 0 || q > symbols.len() || a > atoms.len() {
        false
    } else if accepting(symbols, atoms, anchored, q, a) {
        true
    } else if q == symbols.len() {
        false
    } else if a == atoms.len() {
        symbols[q] == SymbolicChar::GlobStar && reach(parts, symbols, atoms, anchored, q + 1, a)
    } else {
        match atoms[a] {
            Atom::Text(e) => match symbols[q] {
                SymbolicChar::Literal(c) => c as u32 == e && reach(parts, symbols, atoms, anchored, q + 1, a + 1),
                SymbolicChar::GlobStar => reach(parts, symbols, atoms, anchored, q, a + 1) || reach(
                    parts,
                    symbols,
                    atoms,
                    anchored,
                    q + 1,
                    a,
                ),
            },
            Atom::Rule(p) => reach_any(
                parts,
                symbols,
                atoms,
                anchored,
                q,
                a,
                q + max_capture(parts, p as int, symbols, q),
            ),
        }
    }
}

/// Whether some state `(t, a + 1)` with `q <= t <= last` reaches acceptance:
/// a placeholder at `a` emitting the symbols `q..t`.
pub open spec fn reach_any(
    parts: Seq<ShapePart>,
    symbols: Seq<SymbolicChar>,
    atoms: Seq<Atom>,
    anchored: bool,
    q: int,
    a: int,
    last: int,
) -> bool
    decreases 2 * (atoms.len() - a), last + 1 - q,
{
    if last < q || a < 0 || a >= atoms.len() {
        false
    } else {
        reach(parts, symbols, atoms, anchored, last, a + 1) || reach_any(parts, symbols, atoms, anchored, q, a, last - 1)
    }
}

/// Whether `ks` are the keys of a decomposition of the rest of the query,
/// from state `(q, a)`: each query symbol is matched against the shape's
/// static text (a wildcard also absorbing static characters), or captured
/// by a placeholder; the symbols before a capture, and wildcards standing for
/// a placeholder, gather into static fragments.
pub open spec fn derives(
    parts: Seq<ShapePart>,
    symbols: Seq<SymbolicChar>,
    atoms: Seq<Atom>,
    anchored: bool,
    q: int,
    a: int,
    ks: Seq<(Option<(RuleIdx, u16)>, Seq<SymbolicChar>)>,
) -> bool
    decreases 2 * (atoms.len() - a) + 1, symbols.len() - q,
{
    if q < 0 || a < 0 || q > symbols.len() || a > atoms.len() {
        false
    } else if q == symbols.len() {
        accepting(symbols, atoms, anchored, q, a) && ks.len() == 0
    } else if a == atoms.len() {
        symbols[q] == SymbolicChar::GlobStar && exists|r: Seq<(Option<(RuleIdx, u16)>, Seq<SymbolicChar>)>|
            derives(parts, symbols, atoms, anchored, q + 1, a, r) && ks == #[trigger] prepended(
                SymbolicChar::GlobStar,
                r,
            )
    } else {
        match atoms[a] {
            Atom::Text(e) => match symbols[q] {
                SymbolicChar::Literal(c) => c as u32 == e && exists|r: Seq<(Option<(RuleIdx, u16)>, Seq<SymbolicChar>)>|
                    derives(parts, symbols, atoms, anchored, q + 1, a + 1, r) && ks == #[trigger] prepended(
                        symbols[q],
                        r,
                    ),
                SymbolicChar::GlobStar => (exists|r: Seq<(Option<(RuleIdx, u16)>, Seq<SymbolicChar>)>|
                    derives(parts, symbols, atoms, anchored, q, a + 1, r) && ks == #[trigger] prepended(
                        SymbolicChar::GlobStar,
                        r,
                    )) || derives(parts, symbols, atoms, anchored, q + 1, a, ks),
            },
            Atom::Rule(p) => derives_any(
                parts,
                symbols,
                atoms,
                anchored,
                q,
                a,
                p as int,
                q + max_capture(parts, p as int, symbols, q),
                ks,
            ),
        }
    }
}

/// Whether the placeholder at part `p`, at atom `a`, emits the symbols
/// `q..t` for some `t <= last`, and `ks` are the keys of a decomposition
/// from there: nothing for an empty block, a wildcard for a block of
/// wildcards, and otherwise a capture by one of its alternatives.
pub open spec fn derives_any(
    parts: Seq<ShapePart>,
    symbols: Seq<SymbolicChar>,
    atoms: Seq<Atom>,
    anchored: bool,
    q: int,
    a: int,
    p: int,
    last: int,
    ks: Seq<(Option<(RuleIdx, u16)>, Seq<SymbolicChar>)>,
) -> bool
    decreases 2 * (atoms.len() - a), last + 1 - q,
{
    if last < q || a < 0 || a >= atoms.len() {
        false
    } else {
        derives_any(parts, symbols, atoms, anchored, q, a, p, last - 1, ks) || if last == q {
            derives(parts, symbols, atoms, anchored, q, a + 1, ks)
        } else if forall|k: int| q <= k < last ==> (#[trigger] symbols[k]) is GlobStar {
            exists|r: Seq<(Option<(RuleIdx, u16)>, Seq<SymbolicChar>)>|
                derives(parts, symbols, atoms, anchored, last, a + 1, r) && ks == #[trigger] prepended(
                    SymbolicChar::GlobStar,
                    r,
                )
        } else {
            ks.len() > 0 && derives(parts, symbols, atoms, anchored, last, a + 1, ks.drop_first()) && exists|j: int|
                0 <= j < parts[p]->Placeholder_0.alternatives@.len() && ks == captured_first(
                    #[trigger] parts[p]->Placeholder_0.alternatives@[j],
                    symbols.subrange(q, last),
                    ks.drop_first(),
                )
        }
    }
}

/// What `tails` list, `out` lists with `symbol` put in front.
proof fn lemma_listed_prepended(tails: Seq<Vec<Fragment>>, out: Seq<Vec<Fragment>>, symbol: SymbolicChar, r: Seq<(Option<(RuleIdx, u16)>, Seq<SymbolicChar>)>)
    requires
        listed(tails, r),
        forall|m: int| 0 <= m < tails.len() ==> listed(out, prepended(symbol, keys_of(#[trigger] tails[m]@))),
    ensures
        listed(out, prepended(symbol, r)),
{
    let m = choose|m: int| 0 <= m < tails.len() && keys_of(#[trigger] tails[m]@) == r;
}

/// What `tails` list, `out` lists unchanged.
proof fn lemma_listed_plain(tails: Seq<Vec<Fragment>>, out: Seq<Vec<Fragment>>, r: Seq<(Option<(RuleIdx, u16)>, Seq<SymbolicChar>)>)
    requires
        listed(tails, r),
        forall|m: int| 0 <= m < tails.len() ==> listed(out, keys_of(#[trigger] tails[m]@)),
    ensures
        listed(out, r),
{
    let m = choose|m: int| 0 <= m < tails.len() && keys_of(#[trigger] tails[m]@) == r;
}

/// What `tails` list, `out` lists after a capture by each alternative.
proof fn lemma_listed_captured(
    tails: Seq<Vec<Fragment>>,
    out: Seq<Vec<Fragment>>,
    alternatives: Seq<SubRule>,
    contents: Seq<SymbolicChar>,
    j: int,
    r: Seq<(Option<(RuleIdx, u16)>, Seq<SymbolicChar>)>,
)
    requires
        listed(tails, r),
        0 <= j < alternatives.len(),
        forall|m: int, i: int|
            0 <= m < tails.len() && 0 <= i < alternatives.len() ==> listed(
                out,
                captured_first(#[trigger] alternatives[i], contents, keys_of(#[trigger] tails[m]@)),
            ),
    ensures
        listed(out, captured_first(alternatives[j], contents, r)),
{
    let m = choose|m: int| 0 <= m < tails.len() && keys_of(#[trigger] tails[m]@) == r;
    assert(listed(out, captured_first(alternatives[j], contents, keys_of(tails[m]@))));
}

/// A decomposition exists only from states that reach acceptance.
proof fn lemma_derives_reach(
    parts: Seq<ShapePart>,
    symbols: Seq<SymbolicChar>,
    atoms: Seq<Atom>,
    anchored: bool,
    q: int,
    a: int,
    ks: Seq<(Option<(RuleIdx, u16)>, Seq<SymbolicChar>)>,
)
    requires
        derives(parts, symbols, atoms, anchored, q, a, ks),
    ensures
        reach(parts, symbols, atoms, anchored, q, a),
    decreases 2 * (atoms.len() - a) + 1, symbols.len() - q,
{
    if q < symbols.len() {
        if a == atoms.len() {
            let r = choose|r: Seq<(Option<(RuleIdx, u16)>, Seq<SymbolicChar>)>|
                derives(parts, symbols, atoms, anchored, q + 1, a, r) && ks == #[trigger] prepended(
                    SymbolicChar::GlobStar,
                    r,
                );
            lemma_derives_reach(parts, symbols, atoms, anchored, q + 1, a, r);
        } else {
            match atoms[a] {
                Atom::Text(e) => match symbols[q] {
                    SymbolicChar::Literal(c) => {
                        let r = choose|r: Seq<(Option<(RuleIdx, u16)>, Seq<SymbolicChar>)>|
                            derives(parts, symbols, atoms, anchored, q + 1, a + 1, r) && ks == #[trigger] prepended(
                                symbols[q],
                                r,
                            );
                        lemma_derives_reach(parts, symbols, atoms, anchored, q + 1, a + 1, r);
                    },
                    SymbolicChar::GlobStar => {
                        if derives(parts, symbols, atoms, anchored, q + 1, a, ks) {
                            lemma_derives_reach(parts, symbols, atoms, anchored, q + 1, a, ks);
                        } else {
                            let r = choose|r: Seq<(Option<(RuleIdx, u16)>, Seq<SymbolicChar>)>|
                                derives(parts, symbols, atoms, anchored, q, a + 1, r) && ks == #[trigger] prepended(
                                    SymbolicChar::GlobStar,
                                    r,
                                );
                            lemma_derives_reach(parts, symbols, atoms, anchored, q, a + 1, r);
                        }
                    },
                },
                Atom::Rule(p) => {
                    let last = q + max_capture(parts, p as int, symbols, q);
                    let t = lemma_derives_any_reach(parts, symbols, atoms, anchored, q, a, p as int, last, ks);
                    lemma_reach_any(parts, symbols, atoms, anchored, q, a, last);
                },
            }
        }
    }
}

proof fn lemma_derives_any_reach(
    parts: Seq<ShapePart>,
    symbols: Seq<SymbolicChar>,
    atoms: Seq<Atom>,
    anchored: bool,
    q: int,
    a: int,
    p: int,
    last: int,
    ks: Seq<(Option<(RuleIdx, u16)>, Seq<SymbolicChar>)>,
) -> (t: int)
    requires
        derives_any(parts, symbols, atoms, anchored, q, a, p, last, ks),
    ensures
        q <= t <= last,
        reach(parts, symbols, atoms, anchored, t, a + 1),
    decreases 2 * (atoms.len() - a), last + 1 - q,
{
    if derives_any(parts, symbols, atoms, anchored, q, a, p, last - 1, ks) {
        lemma_derives_any_reach(parts, symbols, atoms, anchored, q, a, p, last - 1, ks)
    } else if last == q {
        lemma_derives_reach(parts, symbols, atoms, anchored, q, a + 1, ks);
        last
    } else if forall|k: int| q <= k < last ==> (#[trigger] symbols[k]) is GlobStar {
        let r = choose|r: Seq<(Option<(RuleIdx, u16)>, Seq<SymbolicChar>)>|
            derives(parts, symbols, atoms, anchored, last, a + 1, r) && ks == #[trigger] prepended(
                SymbolicChar::GlobStar,
                r,
            );
        lemma_derives_reach(parts, symbols, atoms, anchored, last, a + 1, r);
        last
    } else {
        lemma_derives_reach(parts, symbols, atoms, anchored, last, a + 1, ks.drop_first());
        last
    }
}

pub proof fn lemma_reach_any(
    parts: Seq<ShapePart>,
    symbols: Seq<SymbolicChar>,
    atoms: Seq<Atom>,
    anchored: bool,
    q: int,
    a: int,
    last: int,
)
    requires
        0 <= a < atoms.len(),
    ensures
        reach_any(parts, symbols, atoms, anchored, q, a, last) <==> exists|t: int|
            q <= t <= last && #[trigger] reach(parts, symbols, atoms, anchored, t, a + 1),
    decreases last + 1 - q,
{
    if last >= q {
        lemma_reach_any(parts, symbols, atoms, anchored, q, a, last - 1);
        if reach_any(parts, symbols, atoms, anchored, q, a, last - 1) {
            let t = choose|t: int| q <= t <= last - 1 && #[trigger] reach(parts, symbols, atoms, anchored, t, a + 1);
            assert(q <= t <= last);
        }
        if exists|t: int| q <= t <= last && #[trigger] reach(parts, symbols, atoms, anchored, t, a + 1) {
            let t = choose|t: int| q <= t <= last && #[trigger] reach(parts, symbols, atoms, anchored, t, a + 1);
            if t < last {
                assert(q <= t <= last - 1 && reach(parts, symbols, atoms, anchored, t, a + 1));
            }
        }
        if reach(parts, symbols, atoms, anchored, last, a + 1) {
            assert(q <= last <= last);
        }
    }
}

/// Reduces runs of consecutive wildcards to one.
pub fn collapse_wildcards(symbols: &[SymbolicChar]) -> (r: Vec<SymbolicChar>)
    ensures
        r@ == collapsed(symbols@),
{
    let mut out: Vec<SymbolicChar> = Vec::new();
    let mut i: usize = 0;
    while i < symbols.len()
        invariant
            0 <= i <= symbols@.len(),
            out@ == collapsed(symbols@.subrange(0, i as int)),
        decreases symbols.len() - i,
    {
        proof {
            let next = symbols@.subrange(0, i + 1);
            assert(next.drop_last() =~= symbols@.subrange(0, i as int));
        }
        let symbol: SymbolicChar = symbols[i];
        let n: usize = out.len();
        if !(symbol == SymbolicChar::GlobStar && n > 0 && out[n - 1] == SymbolicChar::GlobStar) {
            out.push(symbol);
        }
        i = i + 1;
    }
    proof {
        assert(symbols@.subrange(0, symbols@.len() as int) =~= symbols@);
    }
    out
}

impl ShapeModel {
    /// The shape flattened into atoms.
    pub fn atoms(&self) -> (r: Vec<Atom>)
        ensures
            r@ == atoms_of(self.parts@),
    {
        let mut out: Vec<Atom> = Vec::new();
        let mut i: usize = 0;
        while i < self.parts.len()
            invariant
                0 <= i <= self.parts@.len(),
                out@ == atoms_of(self.parts@.subrange(0, i as int)),
            decreases self.parts.len() - i,
        {
            proof {
                let next = self.parts@.subrange(0, i + 1);
                assert(next.drop_last() =~= self.parts@.subrange(0, i as int));
            }
            match &self.parts[i] {
                ShapePart::Static(text) => {
                    let chars: Vec<char> = crate::text::chars_of(text.as_str());
                    let ghost base = out@;
                    let mut k: usize = 0;
                    proof {
                        assert(chars@.subrange(0, 0) =~= Seq::<char>::empty());
                        assert(base + chars_atoms(Seq::<char>::empty()) =~= base);
                    }
                    while k < chars.len()
                        invariant
                            0 <= k <= chars@.len(),
                            out@ == base + chars_atoms(chars@.subrange(0, k as int)),
                        decreases chars.len() - k,
                    {
                        let ghost before = out@;
                        let atom: Atom = Atom::Text(crate::text::char_code(chars[k]));
                        out.push(atom);
                        proof {
                            assert(out@ == before.push(atom));
                            assert(atom == Atom::Text(chars@[k as int] as u32));
                            let next = chars@.subrange(0, k + 1);
                            assert(next.drop_last() =~= chars@.subrange(0, k as int));
                            lemma_chars_atoms_step(chars@, k as int);
                            let pre = chars_atoms(chars@.subrange(0, k as int));
                            assert(before == base + pre);
                            lemma_push_after_concat(base, pre, atom);
                            assert(chars_atoms(next) == pre.push(atom));
                            assert(out@ == base + pre.push(atom));
                            assert(out@ == base + chars_atoms(next));
                        }
                        k = k + 1;
                    }
                    proof {
                        assert(chars@.subrange(0, chars@.len() as int) =~= chars@);
                    }
                },
                ShapePart::Placeholder(_) => {
                    out.push(Atom::Rule(i));
                    proof {
                        assert(seq![Atom::Rule(i)] =~= part_atoms(self.parts@[i as int], i as int));
                    }
                },
            }
            i = i + 1;
        }
        proof {
            assert(self.parts@.subrange(0, self.parts@.len() as int) =~= self.parts@);
        }
        out
    }
}

/// A cheap sufficient condition for "not ruled out": the query floats
/// (starts with a wildcard) and some placeholder, which may end the message
/// when the query is end-anchored, admits every literal of the query.
pub open spec fn obviously_not_ruled_out(parts: Seq<ShapePart>, symbols: Seq<SymbolicChar>, anchored: bool) -> bool {
    &&& symbols.len() > 0
    &&& symbols[0] == SymbolicChar::GlobStar
    &&& exists|i: int|
        0 <= i < parts.len() && #[trigger] placeholder_admits_all(parts, i, symbols, anchored)
}

/// The part `i` is a placeholder that may end the message (when anchored)
/// and admits every literal of `symbols`.
pub open spec fn placeholder_admits_all(parts: Seq<ShapePart>, i: int, symbols: Seq<SymbolicChar>, anchored: bool) -> bool {
    &&& parts[i] is Placeholder
    &&& (anchored ==> forall|k: int| i < k < parts.len() ==> part_can_be_empty(#[trigger] parts[k]))
    &&& ((forall|c: int| 0 <= c <= max_char() ==> parts[i]->Placeholder_0.charset.has(c)) || forall|k: int|
        0 <= k < symbols.len() ==> admits(parts, i, #[trigger] symbols[k]))
}

/// Whether every atom from `a` on is a placeholder.
fn can_stop_from(atoms: &Vec<Atom>, a: usize) -> (r: bool)
    requires
        a <= atoms@.len(),
    ensures
        r == can_stop(atoms@, a as int),
{
    let mut i: usize = a;
    while i < atoms.len()
        invariant
            a <= i <= atoms@.len(),
            forall|k: int| a <= k < i ==> (#[trigger] atoms@[k]) is Rule,
        decreases atoms.len() - i,
    {
        match atoms[i] {
            Atom::Text(_) => {
                return false;
            },
            Atom::Rule(_) => {},
        }
        i = i + 1;
    }
    true
}

/// Whether the placeholder at `part` can emit `symbol`.
fn admits_symbol(model: &ShapeModel, part: usize, symbol: SymbolicChar) -> (r: bool)
    requires
        part < model.parts@.len(),
    ensures
        r == admits(model.parts@, part as int, symbol),
{
    match symbol {
        SymbolicChar::GlobStar => true,
        SymbolicChar::Literal(c) => match &model.parts[part] {
            ShapePart::Placeholder(p) => p.charset.contains(c),
            ShapePart::Static(_) => false,
        },
    }
}

/// The longest block of symbols from `query` that the placeholder at `part`
/// can emit.
fn max_capture_length(model: &ShapeModel, part: usize, symbols: &Vec<SymbolicChar>, query: usize) -> (r: usize)
    requires
        part < model.parts@.len(),
        query <= symbols@.len(),
    ensures
        r == max_capture(model.parts@, part as int, symbols@, query as int),
        query + r <= symbols@.len(),
{
    let mut length: usize = 0;
    while length < symbols.len() - query && admits_symbol(model, part, symbols[query + length])
        invariant
            query + length <= symbols@.len(),
            part < model.parts@.len(),
            max_capture(model.parts@, part as int, symbols@, query as int) == length + max_capture(
                model.parts@,
                part as int,
                symbols@,
                query + length,
            ),
        decreases symbols.len() - query - length,
    {
        length = length + 1;
    }
    length
}

/// `table[a][q] == reach(q, a)` for every state.
pub open spec fn solved(
    parts: Seq<ShapePart>,
    symbols: Seq<SymbolicChar>,
    atoms: Seq<Atom>,
    anchored: bool,
    table: Seq<Vec<bool>>,
    from: int,
) -> bool {
    &&& forall|a: int| from <= a <= atoms.len() ==> (#[trigger] table[a])@.len() == symbols.len() + 1
    &&& forall|a: int, q: int|
        from <= a <= atoms.len() && 0 <= q <= symbols.len() ==> #[trigger] table[a]@[q] == reach(
            parts,
            symbols,
            atoms,
            anchored,
            q,
            a,
        )
}

/// Which states can consume the rest of the query and accept: one column
/// per atom position, solved from the last atom back.
fn reachability(model: &ShapeModel, symbols: &Vec<SymbolicChar>, atoms: &Vec<Atom>, anchored: bool) -> (table: Vec<
    Vec<bool>,
>)
    requires
        atoms@ == atoms_of(model.parts@),
        symbols@.len() < usize::MAX,
        atoms@.len() < usize::MAX,
        forall|k: int| 0 <= k < atoms@.len() ==> (#[trigger] atoms@[k] matches Atom::Rule(p) ==> p < model.parts@.len()),
    ensures
        table@.len() == atoms@.len() + 1,
        solved(model.parts@, symbols@, atoms@, anchored, table@, 0),
{
    let n: usize = symbols.len();
    let na: usize = atoms.len();
    let ghost parts = model.parts@;
    let mut table: Vec<Vec<bool>> = Vec::new();
    let mut k: usize = 0;
    while k <= na
        invariant
            0 <= k <= na + 1,
            na < usize::MAX,
            table@.len() == k,
        decreases na + 1 - k,
    {
        table.push(Vec::new());
        k = k + 1;
    }
    let mut a: usize = na + 1;
    while a > 0
        invariant
            0 <= a <= na + 1,
            na == atoms@.len(),
            n == symbols@.len(),
            n < usize::MAX,
            na < usize::MAX,
            parts == model.parts@,
            atoms@ == atoms_of(parts),
            forall|k: int| 0 <= k < atoms@.len() ==> (#[trigger] atoms@[k] matches Atom::Rule(p) ==> p < parts.len()),
            table@.len() == na + 1,
            solved(parts, symbols@, atoms@, anchored, table@, a as int),
        decreases a,
    {
        a = a - 1;
        let mut column: Vec<bool> = Vec::new();
        let mut j: usize = 0;
        while j <= n
            invariant
                0 <= j <= n + 1,
                n < usize::MAX,
                column@.len() == j,
            decreases n + 1 - j,
        {
            column.push(false);
            j = j + 1;
        }
        let stop: bool = !anchored || can_stop_from(atoms, a);
        let mut q: usize = n + 1;
        while q > 0
            invariant
                0 <= q <= n + 1,
                a <= na,
                na == atoms@.len(),
                n == symbols@.len(),
                n < usize::MAX,
                parts == model.parts@,
                forall|k: int| 0 <= k < atoms@.len() ==> (#[trigger] atoms@[k] matches Atom::Rule(p) ==> p < parts.len()),
                stop == (!anchored || can_stop(atoms@, a as int)),
                column@.len() == n + 1,
                table@.len() == na + 1,
                solved(parts, symbols@, atoms@, anchored, table@, a + 1),
                forall|x: int| q <= x <= n ==> #[trigger] column@[x] == reach(parts, symbols@, atoms@, anchored, x, a as int),
            decreases q,
        {
            q = q - 1;
            let value: bool = if q == n && stop {
                proof {
                    assert(accepting(symbols@, atoms@, anchored, q as int, a as int));
                }
                true
            } else if q == n {
                proof {
                    assert(!accepting(symbols@, atoms@, anchored, q as int, a as int));
                    assert(!reach(parts, symbols@, atoms@, anchored, q as int, a as int));
                }
                false
            } else if a == na {
                let v: bool = symbols[q] == SymbolicChar::GlobStar && column[q + 1];
                proof {
                    assert(column@[q + 1] == reach(parts, symbols@, atoms@, anchored, q + 1, a as int));
                    assert(v == reach(parts, symbols@, atoms@, anchored, q as int, a as int));
                }
                v
            } else {
                proof {
                    assert(table@[a + 1]@[0int] == reach(parts, symbols@, atoms@, anchored, 0, a + 1));
                    assert(table@[a + 1]@[q + 1] == reach(parts, symbols@, atoms@, anchored, q + 1, a + 1));
                    assert(table@[a + 1]@[q as int] == reach(parts, symbols@, atoms@, anchored, q as int, a + 1));
                }
                match atoms[a] {
                    Atom::Text(expected) => match symbols[q] {
                        SymbolicChar::Literal(c) => {
                            let v: bool = crate::text::char_code(c) == expected && table[a + 1][q + 1];
                            proof {
                                assert(v == reach(parts, symbols@, atoms@, anchored, q as int, a as int));
                            }
                            v
                        },
                        SymbolicChar::GlobStar => {
                            let v: bool = table[a + 1][q] || column[q + 1];
                            proof {
                                assert(column@[q + 1] == reach(parts, symbols@, atoms@, anchored, q + 1, a as int));
                                assert(v == reach(parts, symbols@, atoms@, anchored, q as int, a as int));
                            }
                            v
                        },
                    },
                    Atom::Rule(part) => {
                        let longest: usize = max_capture_length(model, part, symbols, q);
                        let mut found: bool = false;
                        let mut len: usize = 0;
                        while len <= longest && !found
                            invariant
                                0 <= len <= longest + 1,
                                q + longest <= n,
                                n < usize::MAX,
                                a < na,
                                na == atoms@.len(),
                                n == symbols@.len(),
                                parts == model.parts@,
                                longest == max_capture(parts, part as int, symbols@, q as int),
                                table@.len() == na + 1,
                                solved(parts, symbols@, atoms@, anchored, table@, a + 1),
                                found ==> len >= 1 && reach(parts, symbols@, atoms@, anchored, q + len - 1, a + 1),
                                !found ==> forall|t: int|
                                    q <= t < q + len ==> !#[trigger] reach(parts, symbols@, atoms@, anchored, t, a + 1),
                            decreases longest + 1 - len,
                        {
                            proof {
                                assert(table@[a + 1]@[0int] == reach(parts, symbols@, atoms@, anchored, 0, a + 1));
                                assert(table@[a + 1]@[q + len] == reach(parts, symbols@, atoms@, anchored, q + len, a + 1));
                            }
                            if table[a + 1][q + len] {
                                found = true;
                            }
                            len = len + 1;
                        }
                        proof {
                            assert(atoms@[a as int] == Atom::Rule(part));
                            assert(!accepting(symbols@, atoms@, anchored, q as int, a as int));
                            if found {
                                let w = q + len - 1;
                                assert(q <= w <= q + max_capture(parts, part as int, symbols@, q as int));
                                assert(reach(parts, symbols@, atoms@, anchored, w, a + 1));
                                lemma_reach_any(parts, symbols@, atoms@, anchored, q as int, a as int, q + longest);
                                assert(reach(parts, symbols@, atoms@, anchored, q as int, a as int));
                            } else {
                                assert(len == longest + 1);
                                lemma_reach_any(parts, symbols@, atoms@, anchored, q as int, a as int, q + longest);
                                assert(!reach(parts, symbols@, atoms@, anchored, q as int, a as int));
                            }
                            assert(found == reach(parts, symbols@, atoms@, anchored, q as int, a as int));
                        }
                        found
                    },
                }
            };
            proof {
                assert(value == reach(parts, symbols@, atoms@, anchored, q as int, a as int));
            }
            column.set(q, value);
        }
        let ghost before = table@;
        table.set(a, column);
        proof {
            assert forall|x: int| a <= x <= atoms@.len() implies (#[trigger] table@[x])@.len() == symbols@.len() + 1 by {
                if x > a {
                    assert(table@[x] == before[x]);
                }
            }
            assert forall|x: int, y: int|
                a <= x <= atoms@.len() && 0 <= y <= symbols@.len() implies #[trigger] table@[x]@[y] == reach(
                parts,
                symbols@,
                atoms@,
                anchored,
                y,
                x,
            ) by {
                if x > a {
                    assert(table@[x] == before[x]);
                    assert(before[x]@[y] == reach(parts, symbols@, atoms@, anchored, y, x));
                } else {
                    assert(table@[x] == column);
                    assert(column@[y] == reach(parts, symbols@, atoms@, anchored, y, x));
                }
            }
        }
    }
    table
}

proof fn lemma_chars_atoms_text(s: Seq<char>)
    ensures
        forall|k: int| 0 <= k < chars_atoms(s).len() ==> (#[trigger] chars_atoms(s)[k]) is Text,
        chars_atoms(s).len() == s.len(),
    decreases s.len(),
{
    if s.len() > 0 {
        lemma_chars_atoms_text(s.drop_last());
    }
}

/// Each placeholder atom names a placeholder part.
pub proof fn lemma_atoms_of_rules(parts: Seq<ShapePart>)
    requires
        parts.len() <= usize::MAX,
    ensures
        forall|k: int|
            0 <= k < atoms_of(parts).len() ==> (#[trigger] atoms_of(parts)[k] matches Atom::Rule(p) ==> p
                < parts.len() && parts[p as int] is Placeholder),
    decreases parts.len(),
{
    if parts.len() > 0 {
        let init = parts.drop_last();
        lemma_atoms_of_rules(init);
        let last = parts.last();
        let a = atoms_of(init);
        let b = part_atoms(last, parts.len() - 1);
        assert(atoms_of(parts) == a + b);
        assert forall|k: int| 0 <= k < (a + b).len() implies ((#[trigger] (a + b)[k]) matches Atom::Rule(p) ==> p
            < parts.len() && parts[p as int] is Placeholder) by {
            if k < a.len() {
                assert((a + b)[k] == a[k]);
                if let Atom::Rule(p) = a[k] {
                    assert(init[p as int] == parts[p as int]);
                }
            } else {
                let j = k - a.len();
                assert((a + b)[k] == b[j]);
                match last {
                    ShapePart::Static(text) => {
                        lemma_chars_atoms_text(text@);
                        assert(b[j] is Text);
                    },
                    ShapePart::Placeholder(_) => {
                        assert(b[j] == Atom::Rule((parts.len() - 1) as usize));
                        assert(parts[parts.len() - 1] == last);
                    },
                }
            }
        }
    }
}

/// Whether `symbols` floats and some placeholder admits all of it; see
/// [`obviously_not_ruled_out`].
fn is_obviously_not_ruled_out(model: &ShapeModel, symbols: &Vec<SymbolicChar>, anchored_at_end: bool) -> (r: bool)
    ensures
        r == obviously_not_ruled_out(model.parts@, symbols@, anchored_at_end),
{
    if symbols.len() == 0 || symbols[0] != SymbolicChar::GlobStar {
        return false;
    }
    let mut i: usize = 0;
    while i < model.parts.len()
        invariant
            0 <= i <= model.parts@.len(),
            symbols@.len() > 0,
            symbols@[0] == SymbolicChar::GlobStar,
            forall|k: int| 0 <= k < i ==> !#[trigger] placeholder_admits_all(model.parts@, k, symbols@, anchored_at_end),
        decreases model.parts.len() - i,
    {
        match &model.parts[i] {
            ShapePart::Placeholder(placeholder) => {
                if !anchored_at_end || model.can_end_at(i) {
                    let mut all: bool = placeholder.charset.is_universal();
                    if !all {
                        let mut k: usize = 0;
                        all = true;
                        while k < symbols.len() && all
                            invariant
                                0 <= k <= symbols@.len(),
                                i < model.parts@.len(),
                                all == forall|j: int| 0 <= j < k ==> admits(model.parts@, i as int, #[trigger] symbols@[j]),
                            decreases symbols.len() - k,
                        {
                            if !admits_symbol(model, i, symbols[k]) {
                                all = false;
                            }
                            k = k + 1;
                        }
                    }
                    if all {
                        proof {
                            assert(placeholder_admits_all(model.parts@, i as int, symbols@, anchored_at_end));
                        }
                        return true;
                    }
                }
            },
            ShapePart::Static(_) => {},
        }
        i = i + 1;
    }
    false
}

/// Whether any message of the shape could match the query: `false` proves
/// none can. `symbols` is the query as the engine sees it (a single trailing
/// wildcard stripped); `anchored_at_end` says whether the query must consume
/// the shape to its end.
pub fn can_match(model: &ShapeModel, symbols: &[SymbolicChar], anchored_at_end: bool) -> (r: bool)
    requires
        symbols@.len() < usize::MAX,
        atoms_of(model.parts@).len() < usize::MAX,
    ensures
        r == (symbols@.len() == 0 || obviously_not_ruled_out(model.parts@, collapsed(symbols@), anchored_at_end)
            || reach(model.parts@, collapsed(symbols@), atoms_of(model.parts@), anchored_at_end, 0, 0)),
{
    if symbols.len() == 0 {
        return true;
    }
    proof {
        lemma_collapsed_len(symbols@);
    }
    let symbols: Vec<SymbolicChar> = collapse_wildcards(symbols);
    if is_obviously_not_ruled_out(model, &symbols, anchored_at_end) {
        return true;
    }
    let atoms: Vec<Atom> = model.atoms();
    proof {
        assert(model.parts@.len() == model.parts.len());
        lemma_atoms_of_rules(model.parts@);
    }
    let table: Vec<Vec<bool>> = reachability(model, &symbols, &atoms, anchored_at_end);
    proof {
        assert(table@[0]@[0] == reach(model.parts@, symbols@, atoms@, anchored_at_end, 0, 0));
    }
    table[0][0]
}


proof fn lemma_literals_add(a: Seq<SymbolicChar>, b: Seq<SymbolicChar>)
    ensures
        literals(a + b) == literals(a) + literals(b),
    decreases b.len(),
{
    if b.len() == 0 {
        assert(a + b =~= a);
        assert(literals(a) + literals(b) =~= literals(a));
    } else {
        lemma_literals_add(a, b.drop_last());
        assert((a + b).drop_last() =~= a + b.drop_last());
        assert((a + b).last() == b.last());
        if b.last() is Literal {
            assert(literals(a) + literals(b.drop_last()).push(b.last()) =~= (literals(a) + literals(
                b.drop_last(),
            )).push(b.last()));
        }
    }
}

proof fn lemma_literals_single(x: SymbolicChar)
    ensures
        literals(seq![x]) == (if x is Literal {
            seq![x]
        } else {
            Seq::<SymbolicChar>::empty()
        }),
{
    assert(seq![x].drop_last() =~= Seq::<SymbolicChar>::empty());
    assert(literals(Seq::<SymbolicChar>::empty()) == Seq::<SymbolicChar>::empty());
    assert(seq![x].last() == x);
    assert(literals(seq![x]) == if x is Literal {
        literals(seq![x].drop_last()).push(x)
    } else {
        literals(seq![x].drop_last())
    });
    assert(Seq::<SymbolicChar>::empty().push(x) =~= seq![x]);
}

/// The literals of `s` are empty exactly when `s` is all wildcards.
proof fn lemma_literals_none(s: Seq<SymbolicChar>)
    ensures
        (literals(s).len() == 0) == (forall|k: int| 0 <= k < s.len() ==> (#[trigger] s[k]) is GlobStar),
    decreases s.len(),
{
    if s.len() > 0 {
        let init = s.drop_last();
        lemma_literals_none(init);
        if literals(s).len() == 0 {
            assert forall|k: int| 0 <= k < s.len() implies (#[trigger] s[k]) is GlobStar by {
                if k < s.len() - 1 {
                    assert(init[k] == s[k]);
                }
            }
        } else {
            if s.last() is GlobStar {
                let k = choose|k: int| 0 <= k < init.len() && !((#[trigger] init[k]) is GlobStar);
                assert(s[k] == init[k]);
            }
        }
    }
}

/// Collapsing wildcards keeps the literals.
proof fn lemma_collapsed_literals(s: Seq<SymbolicChar>)
    ensures
        literals(collapsed(s)) == literals(s),
    decreases s.len(),
{
    if s.len() > 0 {
        lemma_collapsed_literals(s.drop_last());
        let init = collapsed(s.drop_last());
        if !(s.last() == SymbolicChar::GlobStar && init.len() > 0 && init.last() == SymbolicChar::GlobStar) {
            assert(init.push(s.last()).drop_last() =~= init);
        }
    }
}

proof fn lemma_flat_cons(x: Fragment, rest: Seq<Fragment>)
    ensures
        flat(seq![x] + rest) == fragment_contents(x) + flat(rest),
{
    let s = seq![x] + rest;
    assert(s.drop_first() =~= rest);
    assert(s[0] == x);
}

proof fn lemma_flat_pointwise(x: Seq<Fragment>, y: Seq<Fragment>)
    requires
        x.len() == y.len(),
        forall|i: int| 0 <= i < x.len() ==> fragment_contents(#[trigger] x[i]) == fragment_contents(y[i]),
    ensures
        flat(x) == flat(y),
    decreases x.len(),
{
    if x.len() > 0 {
        assert(fragment_contents(x[0]) == fragment_contents(y[0]));
        lemma_flat_pointwise(x.drop_first(), y.drop_first());
    }
}

/// Every symbol of a capture up to the longest is admitted.
proof fn lemma_max_capture_admits(parts: Seq<ShapePart>, p: int, symbols: Seq<SymbolicChar>, q: int, len: int)
    requires
        0 <= q,
        0 <= len <= max_capture(parts, p, symbols, q),
    ensures
        forall|k: int| q <= k < q + len ==> admits(parts, p, #[trigger] symbols[k]),
    decreases len,
{
    if len > 0 {
        lemma_max_capture_admits(parts, p, symbols, q + 1, len - 1);
    }
}

/// Whether two symbol sequences are equal.
fn same_symbols(x: &Vec<SymbolicChar>, y: &Vec<SymbolicChar>) -> (r: bool)
    ensures
        r == (x@ == y@),
{
    if x.len() != y.len() {
        return false;
    }
    let mut i: usize = 0;
    while i < x.len()
        invariant
            0 <= i <= x@.len(),
            x@.len() == y@.len(),
            forall|k: int| 0 <= k < i ==> x@[k] == y@[k],
        decreases x.len() - i,
    {
        if x[i] != y[i] {
            return false;
        }
        i = i + 1;
    }
    proof {
        assert(x@ =~= y@);
    }
    true
}

/// Whether two fragments are the same.
fn same_fragment(x: &Fragment, y: &Fragment) -> (r: bool)
    ensures
        r == (fragment_key(*x) == fragment_key(*y)),
{
    match x {
        Fragment::Static(a) => match y {
            Fragment::Static(b) => same_symbols(a, b),
            Fragment::Capture { .. } => false,
        },
        Fragment::Capture { sub_rule: s, contents: a } => match y {
            Fragment::Static(_) => false,
            Fragment::Capture { sub_rule: t, contents: b } => {
                s.root_rule_idx == t.root_rule_idx && s.id == t.id && same_symbols(a, b)
            },
        },
    }
}

/// Whether two decompositions have the same fragments.
fn same_decomposition(x: &Vec<Fragment>, y: &Vec<Fragment>) -> (r: bool)
    ensures
        r == same_fragments(x@, y@),
{
    if x.len() != y.len() {
        return false;
    }
    let mut i: usize = 0;
    while i < x.len()
        invariant
            0 <= i <= x@.len(),
            x@.len() == y@.len(),
            forall|k: int| 0 <= k < i ==> fragment_key(#[trigger] x@[k]) == fragment_key(y@[k]),
        decreases x.len() - i,
    {
        if !same_fragment(&x[i], &y[i]) {
            return false;
        }
        i = i + 1;
    }
    true
}

/// Adds `item` unless the same decomposition is already listed.
fn insert_distinct(collected: &mut Vec<Vec<Fragment>>, item: Vec<Fragment>)
    requires
        distinct(old(collected)@),
    ensures
        distinct(final(collected)@),
        final(collected)@.len() > 0,
        final(collected)@ == old(collected)@ || final(collected)@ == old(collected)@.push(item),
        listed(final(collected)@, keys_of(item@)),
{
    let mut i: usize = 0;
    while i < collected.len()
        invariant
            0 <= i <= collected@.len(),
            distinct(collected@),
            forall|k: int| 0 <= k < i ==> !same_fragments(#[trigger] collected@[k]@, item@),
        decreases collected.len() - i,
    {
        if same_decomposition(&collected[i], &item) {
            proof {
                lemma_same_keys(collected@[i as int]@, item@);
            }
            return;
        }
        i = i + 1;
    }
    let ghost before = collected@;
    let ghost item_view = item@;
    collected.push(item);
    proof {
        assert(collected@[before.len() as int]@ == item_view);
        assert forall|x: int, y: int| 0 <= x < y < collected@.len() implies !same_fragments(
            #[trigger] collected@[x]@,
            #[trigger] collected@[y]@,
        ) by {
            if y == before.len() {
                assert(collected@[x] == before[x]);
            } else {
                assert(collected@[x] == before[x]);
                assert(collected@[y] == before[y]);
            }
        }
    }
}

/// A copy of a symbol sequence.
fn copy_symbols(v: &Vec<SymbolicChar>, from: usize, to: usize) -> (r: Vec<SymbolicChar>)
    requires
        from <= to <= v@.len(),
    ensures
        r@ == v@.subrange(from as int, to as int),
{
    let mut out: Vec<SymbolicChar> = Vec::new();
    let mut i: usize = from;
    while i < to
        invariant
            from <= i <= to,
            to <= v@.len(),
            out@ == v@.subrange(from as int, i as int),
        decreases to - i,
    {
        out.push(v[i]);
        proof {
            assert(v@.subrange(from as int, i + 1) =~= v@.subrange(from as int, i as int).push(v@[i as int]));
        }
        i = i + 1;
    }
    out
}

/// `r` is a copy of `f`.
pub open spec fn copied(r: Fragment, f: Fragment) -> bool {
    match f {
        Fragment::Static(c) => r matches Fragment::Static(d) && d@ == c@,
        Fragment::Capture { sub_rule, contents } => r matches Fragment::Capture { sub_rule: s, contents: d }
            && d@ == contents@ && same_capture(s, sub_rule) && s.root_rule_idx == sub_rule.root_rule_idx && s.id
            == sub_rule.id,
    }
}

proof fn lemma_copied_valid(parts: Seq<ShapePart>, r: Fragment, f: Fragment)
    requires
        copied(r, f),
        valid_fragment(parts, f),
    ensures
        valid_fragment(parts, r),
        fragment_contents(r) == fragment_contents(f),
        fragment_key(r) == fragment_key(f),
{
    if let Fragment::Capture { sub_rule, contents } = f {
        let p = choose|p: int| #[trigger] captured_at(parts, p, sub_rule, contents@);
        let ph = parts[p]->Placeholder_0;
        let j = choose|j: int|
            0 <= j < ph.alternatives@.len() && same_capture(sub_rule, #[trigger] ph.alternatives@[j]);
        if let Fragment::Capture { sub_rule: s, contents: d } = r {
            assert(same_capture(s, ph.alternatives@[j]));
            assert(captured_at(parts, p, s, d@));
        }
    }
}

/// A copy of a fragment.
fn copy_fragment(f: &Fragment) -> (r: Fragment)
    ensures
        copied(r, *f),
{
    match f {
        Fragment::Static(c) => {
            proof {
                assert(c@.subrange(0, c@.len() as int) =~= c@);
            }
            Fragment::Static(copy_symbols(c, 0, c.len()))
        },
        Fragment::Capture { sub_rule, contents } => {
            proof {
                assert(contents@.subrange(0, contents@.len() as int) =~= contents@);
            }
            Fragment::Capture { sub_rule: sub_rule.deep_copy(), contents: copy_symbols(contents, 0, contents.len()) }
        },
    }
}

/// A copy of a decomposition.
fn copy_decomposition(tail: &Vec<Fragment>) -> (r: Vec<Fragment>)
    ensures
        r@.len() == tail@.len(),
        forall|i: int| 0 <= i < tail@.len() ==> copied(#[trigger] r@[i], tail@[i]),
        keys_of(r@) == keys_of(tail@),
{
    let mut out: Vec<Fragment> = Vec::new();
    let mut i: usize = 0;
    while i < tail.len()
        invariant
            0 <= i <= tail@.len(),
            out@.len() == i,
            forall|k: int| 0 <= k < i ==> copied(#[trigger] out@[k], tail@[k]),
        decreases tail.len() - i,
    {
        out.push(copy_fragment(&tail[i]));
        i = i + 1;
    }
    proof {
        assert forall|k: int| 0 <= k < tail@.len() implies #[trigger] keys_of(out@)[k] == keys_of(tail@)[k] by {
            assert(copied(out@[k], tail@[k]));
        }
        assert(keys_of(out@) =~= keys_of(tail@));
    }
    out
}

/// A valid copy of a good decomposition is good.
proof fn lemma_copy_good(parts: Seq<ShapePart>, target: Seq<SymbolicChar>, r: Seq<Fragment>, tail: Seq<Fragment>)
    requires
        good(parts, target, tail),
        r.len() == tail.len(),
        forall|i: int| 0 <= i < tail.len() ==> copied(#[trigger] r[i], tail[i]),
    ensures
        good(parts, target, r),
{
    assert forall|i: int| 0 <= i < r.len() implies fragment_contents(#[trigger] r[i]) == fragment_contents(tail[i])
        && valid_fragment(parts, r[i]) by {
        assert(copied(r[i], tail[i]));
        assert(valid_fragment(parts, tail[i]));
        lemma_copied_valid(parts, r[i], tail[i]);
    }
    lemma_flat_pointwise(r, tail);
}

/// Prepends `symbol`, merging into a leading static fragment; a wildcard
/// before a leading wildcard is dropped.
fn prepend_symbol(fragments: &mut Vec<Fragment>, symbol: SymbolicChar)
    ensures
        literals(flat(final(fragments)@)) == literals(seq![symbol]) + literals(flat(old(fragments)@)),
        final(fragments)@.len() > 0,
        final(fragments)@[0] is Static,
        final(fragments)@.drop_first() == old(fragments)@ || (old(fragments)@.len() > 0
            && final(fragments)@.drop_first() == old(fragments)@.drop_first()),
        keys_of(final(fragments)@) == prepended(symbol, keys_of(old(fragments)@)),
{
    let ghost before = fragments@;
    if fragments.len() > 0 {
        let first: Fragment = fragments.remove(0);
        proof {
            assert(fragments@ =~= before.drop_first());
            assert(before[0] == first);
        }
        match first {
            Fragment::Static(mut contents) => {
                let ghost old_contents = contents@;
                let n: usize = contents.len();
                let keep: bool = symbol == SymbolicChar::GlobStar && n > 0 && contents[0] == SymbolicChar::GlobStar;
                if !keep {
                    contents.insert(0, symbol);
                }
                let ghost rest = fragments@;
                fragments.insert(0, Fragment::Static(contents));
                proof {
                    let new_first = Fragment::Static(contents);
                    assert(fragments@ =~= seq![new_first] + rest);
                    lemma_flat_cons(new_first, rest);
                    assert(before =~= seq![first] + rest);
                    lemma_flat_cons(first, rest);
                    lemma_literals_single(symbol);
                    if keep {
                        assert(contents@ == old_contents);
                    } else {
                        assert(contents@ =~= seq![symbol] + old_contents);
                        lemma_literals_add(seq![symbol], old_contents + flat(rest));
                        assert(seq![symbol] + old_contents + flat(rest) =~= seq![symbol] + (old_contents + flat(rest)));
                    }
                    assert(fragments@.drop_first() =~= rest);
                    assert(keys_of(before)[0] == fragment_key(first));
                    assert(keys_of(before).drop_first() =~= keys_of(rest));
                    assert(keys_of(fragments@) =~= prepended(symbol, keys_of(before)));
                }
            },
            Fragment::Capture { sub_rule, contents } => {
                let ghost rest = fragments@;
                fragments.insert(0, Fragment::Capture { sub_rule, contents });
                proof {
                    assert(fragments@ =~= before);
                }
                let ghost middle = fragments@;
                let mut single: Vec<SymbolicChar> = Vec::new();
                single.push(symbol);
                fragments.insert(0, Fragment::Static(single));
                proof {
                    let new_first = Fragment::Static(single);
                    assert(single@ =~= seq![symbol]);
                    assert(fragments@ =~= seq![new_first] + before);
                    lemma_flat_cons(new_first, before);
                    lemma_literals_add(seq![symbol], flat(before));
                    assert(fragments@.drop_first() =~= before);
                    assert(keys_of(before)[0] == fragment_key(before[0]));
                    assert(keys_of(fragments@) =~= prepended(symbol, keys_of(before)));
                }
            },
        }
    } else {
        let mut single: Vec<SymbolicChar> = Vec::new();
        single.push(symbol);
        fragments.push(Fragment::Static(single));
        proof {
            let new_first = Fragment::Static(single);
            assert(single@ =~= seq![symbol]);
            assert(fragments@ =~= seq![new_first] + before);
            lemma_flat_cons(new_first, before);
            lemma_literals_add(seq![symbol], flat(before));
            assert(fragments@.drop_first() =~= before);
            assert(keys_of(fragments@) =~= prepended(symbol, keys_of(before)));
        }
    }
}


/// Adds each of `tails` unchanged.
fn extend_plain(
    collected: &mut Vec<Vec<Fragment>>,
    tails: &Vec<Vec<Fragment>>,
    Ghost(parts): Ghost<Seq<ShapePart>>,
    Ghost(target): Ghost<Seq<SymbolicChar>>,
)
    requires
        distinct(old(collected)@),
        forall|i: int| 0 <= i < old(collected)@.len() ==> good(parts, target, #[trigger] old(collected)@[i]@),
        forall|i: int| 0 <= i < tails@.len() ==> good(parts, target, #[trigger] tails@[i]@),
    ensures
        distinct(final(collected)@),
        forall|i: int| 0 <= i < final(collected)@.len() ==> good(parts, target, #[trigger] final(collected)@[i]@),
        old(collected)@.len() > 0 ==> final(collected)@.len() > 0,
        tails@.len() > 0 ==> final(collected)@.len() > 0,
        final(collected)@.len() <= old(collected)@.len() + tails@.len(),
        final(collected)@.len() >= old(collected)@.len(),
        final(collected)@.subrange(0, old(collected)@.len() as int) == old(collected)@,
        forall|m: int| 0 <= m < tails@.len() ==> listed(final(collected)@, keys_of(#[trigger] tails@[m]@)),
        forall|x: int|
            old(collected)@.len() <= x < final(collected)@.len() ==> from_tails(
                None,
                keys_of(#[trigger] final(collected)@[x]@),
                tails@,
            ),
{
    let mut i: usize = 0;
    while i < tails.len()
        invariant
            0 <= i <= tails@.len(),
            collected@.len() <= old(collected)@.len() + i,
            collected@.len() >= old(collected)@.len(),
            collected@.subrange(0, old(collected)@.len() as int) == old(collected)@,
            forall|m: int| 0 <= m < i ==> listed(collected@, keys_of(#[trigger] tails@[m]@)),
            forall|x: int|
                old(collected)@.len() <= x < collected@.len() ==> from_tails(
                    None,
                    keys_of(#[trigger] collected@[x]@),
                    tails@.subrange(0, i as int),
                ),
            distinct(collected@),
            forall|k: int| 0 <= k < collected@.len() ==> good(parts, target, #[trigger] collected@[k]@),
            forall|k: int| 0 <= k < tails@.len() ==> good(parts, target, #[trigger] tails@[k]@),
            old(collected)@.len() > 0 ==> collected@.len() > 0,
            i > 0 ==> collected@.len() > 0,
        decreases tails.len() - i,
    {
        let item: Vec<Fragment> = copy_decomposition(&tails[i]);
        proof {
            lemma_copy_good(parts, target, item@, tails@[i as int]@);
        }
        let ghost before = collected@;
        insert_distinct(collected, item);
        proof {
            assert forall|k: int| 0 <= k < collected@.len() implies good(parts, target, #[trigger] collected@[k]@) by {
                if k < before.len() {
                    assert(collected@[k] == before[k]);
                }
            }
        }
        proof {
            assert(collected@.subrange(0, before.len() as int) =~= before);
                assert(collected@.subrange(0, old(collected)@.len() as int) =~= before.subrange(0, old(collected)@.len() as int));
                assert forall|m: int| 0 <= m < i implies listed(collected@, keys_of(#[trigger] tails@[m]@)) by {
                    lemma_listed_grows(before, collected@, keys_of(tails@[m]@));
                }
                assert(listed(collected@, keys_of(tails@[i as int]@)));
                assert forall|x: int| old(collected)@.len() <= x < collected@.len() implies from_tails(
                    None,
                    keys_of(#[trigger] collected@[x]@),
                    tails@.subrange(0, i + 1),
                ) by {
                    let t2 = tails@.subrange(0, i + 1);
                    if x < before.len() {
                        assert(collected@[x] == before[x]);
                        let t1 = tails@.subrange(0, i as int);
                        let m = choose|m: int| 0 <= m < t1.len() && keys_of(before[x]@) == keys_of(#[trigger] t1[m]@);
                        assert(t2[m] == t1[m]);
                    } else {
                        assert(keys_of(collected@[x]@) == keys_of(t2[i as int]@));
                    }
                }
            }
        i = i + 1;
    }
    proof {
        assert(tails@.subrange(0, i as int) =~= tails@);
    }
}

/// Adds each of `tails`, with `symbol` prepended.
fn extend_symbol(
    collected: &mut Vec<Vec<Fragment>>,
    tails: &Vec<Vec<Fragment>>,
    symbol: SymbolicChar,
    Ghost(parts): Ghost<Seq<ShapePart>>,
    Ghost(target): Ghost<Seq<SymbolicChar>>,
    Ghost(tail_target): Ghost<Seq<SymbolicChar>>,
)
    requires
        target == literals(seq![symbol]) + tail_target,
        distinct(old(collected)@),
        forall|i: int| 0 <= i < old(collected)@.len() ==> good(parts, target, #[trigger] old(collected)@[i]@),
        forall|i: int| 0 <= i < tails@.len() ==> good(parts, tail_target, #[trigger] tails@[i]@),
    ensures
        distinct(final(collected)@),
        forall|i: int| 0 <= i < final(collected)@.len() ==> good(parts, target, #[trigger] final(collected)@[i]@),
        old(collected)@.len() > 0 ==> final(collected)@.len() > 0,
        tails@.len() > 0 ==> final(collected)@.len() > 0,
        final(collected)@.len() <= old(collected)@.len() + tails@.len(),
        final(collected)@.len() >= old(collected)@.len(),
        final(collected)@.subrange(0, old(collected)@.len() as int) == old(collected)@,
        forall|m: int|
            0 <= m < tails@.len() ==> listed(final(collected)@, prepended(symbol, keys_of(#[trigger] tails@[m]@))),
        forall|x: int|
            old(collected)@.len() <= x < final(collected)@.len() ==> from_tails(
                Some(symbol),
                keys_of(#[trigger] final(collected)@[x]@),
                tails@,
            ),
{
    let mut i: usize = 0;
    while i < tails.len()
        invariant
            0 <= i <= tails@.len(),
            collected@.len() <= old(collected)@.len() + i,
            collected@.len() >= old(collected)@.len(),
            collected@.subrange(0, old(collected)@.len() as int) == old(collected)@,
            forall|m: int| 0 <= m < i ==> listed(collected@, prepended(symbol, keys_of(#[trigger] tails@[m]@))),
            forall|x: int|
                old(collected)@.len() <= x < collected@.len() ==> from_tails(
                    Some(symbol),
                    keys_of(#[trigger] collected@[x]@),
                    tails@.subrange(0, i as int),
                ),
            target == literals(seq![symbol]) + tail_target,
            distinct(collected@),
            forall|k: int| 0 <= k < collected@.len() ==> good(parts, target, #[trigger] collected@[k]@),
            forall|k: int| 0 <= k < tails@.len() ==> good(parts, tail_target, #[trigger] tails@[k]@),
            old(collected)@.len() > 0 ==> collected@.len() > 0,
            i > 0 ==> collected@.len() > 0,
        decreases tails.len() - i,
    {
        let mut item: Vec<Fragment> = copy_decomposition(&tails[i]);
        proof {
            lemma_copy_good(parts, tail_target, item@, tails@[i as int]@);
        }
        let ghost copy = item@;
        prepend_symbol(&mut item, symbol);
        proof {
            assert forall|k: int| 0 <= k < item@.len() implies valid_fragment(parts, #[trigger] item@[k]) by {
                if k > 0 {
                    assert(item@[k] == item@.drop_first()[k - 1]);
                    if item@.drop_first() == copy {
                        assert(copy[k - 1] == item@[k]);
                    } else {
                        assert(item@.drop_first() == copy.drop_first());
                        assert(item@.drop_first().len() == copy.drop_first().len());
                        assert(item@.len() == copy.len());
                        assert(copy.drop_first()[k - 1] == copy[k]);
                    }
                }
            }
        }
        let ghost before = collected@;
        insert_distinct(collected, item);
        proof {
            assert forall|k: int| 0 <= k < collected@.len() implies good(parts, target, #[trigger] collected@[k]@) by {
                if k < before.len() {
                    assert(collected@[k] == before[k]);
                }
            }
        }
        proof {
            assert(collected@.subrange(0, before.len() as int) =~= before);
                assert(collected@.subrange(0, old(collected)@.len() as int) =~= before.subrange(0, old(collected)@.len() as int));
                assert forall|m: int| 0 <= m < i implies listed(collected@, prepended(symbol, keys_of(#[trigger] tails@[m]@))) by {
                    lemma_listed_grows(before, collected@, prepended(symbol, keys_of(tails@[m]@)));
                }
                assert(listed(collected@, prepended(symbol, keys_of(tails@[i as int]@))));
                assert forall|x: int| old(collected)@.len() <= x < collected@.len() implies from_tails(
                    Some(symbol),
                    keys_of(#[trigger] collected@[x]@),
                    tails@.subrange(0, i + 1),
                ) by {
                    let t2 = tails@.subrange(0, i + 1);
                    if x < before.len() {
                        assert(collected@[x] == before[x]);
                        let t1 = tails@.subrange(0, i as int);
                        let m = choose|m: int| 0 <= m < t1.len() && keys_of(before[x]@) == prepended(symbol, keys_of(#[trigger] t1[m]@));
                        assert(t2[m] == t1[m]);
                    } else {
                        assert(keys_of(collected@[x]@) == prepended(symbol, keys_of(t2[i as int]@)));
                    }
                }
            }
        i = i + 1;
    }
    proof {
        assert(tails@.subrange(0, i as int) =~= tails@);
    }
}

/// Adds each of `tails`, after a capture of `contents` by each of the
/// alternatives of the placeholder at part `p`.
#[verifier::rlimit(60)]
fn extend_capture(
    collected: &mut Vec<Vec<Fragment>>,
    tails: &Vec<Vec<Fragment>>,
    alternatives: &Vec<SubRule>,
    contents: &Vec<SymbolicChar>,
    Ghost(parts): Ghost<Seq<ShapePart>>,
    Ghost(p): Ghost<int>,
    Ghost(target): Ghost<Seq<SymbolicChar>>,
    Ghost(tail_target): Ghost<Seq<SymbolicChar>>,
)
    requires
        0 <= p < parts.len(),
        parts[p] matches ShapePart::Placeholder(ph) && ph.alternatives@ == alternatives@,
        literals(contents@).len() > 0,
        forall|k: int| 0 <= k < contents@.len() ==> admits(parts, p, #[trigger] contents@[k]),
        target == literals(contents@) + tail_target,
        distinct(old(collected)@),
        forall|i: int| 0 <= i < old(collected)@.len() ==> good(parts, target, #[trigger] old(collected)@[i]@),
        forall|i: int| 0 <= i < tails@.len() ==> good(parts, tail_target, #[trigger] tails@[i]@),
    ensures
        distinct(final(collected)@),
        forall|i: int| 0 <= i < final(collected)@.len() ==> good(parts, target, #[trigger] final(collected)@[i]@),
        old(collected)@.len() > 0 ==> final(collected)@.len() > 0,
        tails@.len() > 0 && alternatives@.len() > 0 ==> final(collected)@.len() > 0,
        final(collected)@.len() <= old(collected)@.len() + tails@.len() * alternatives@.len(),
        final(collected)@.len() >= old(collected)@.len(),
        final(collected)@.subrange(0, old(collected)@.len() as int) == old(collected)@,
        forall|m: int, j: int|
            0 <= m < tails@.len() && 0 <= j < alternatives@.len() ==> listed(
                final(collected)@,
                captured_first(#[trigger] alternatives@[j], contents@, keys_of(#[trigger] tails@[m]@)),
            ),
        forall|x: int|
            old(collected)@.len() <= x < final(collected)@.len() ==> from_captures(
                alternatives@,
                contents@,
                keys_of(#[trigger] final(collected)@[x]@),
                tails@,
            ),
{
    let mut i: usize = 0;
    while i < tails.len()
        invariant
            0 <= i <= tails@.len(),
            collected@.len() >= old(collected)@.len(),
            collected@.subrange(0, old(collected)@.len() as int) == old(collected)@,
            forall|m: int, j: int|
                0 <= m < i && 0 <= j < alternatives@.len() ==> listed(
                    collected@,
                    captured_first(#[trigger] alternatives@[j], contents@, keys_of(#[trigger] tails@[m]@)),
                ),
            forall|x: int|
                old(collected)@.len() <= x < collected@.len() ==> from_captures(
                    alternatives@,
                    contents@,
                    keys_of(#[trigger] collected@[x]@),
                    tails@.subrange(0, i as int),
                ),
            collected@.len() <= old(collected)@.len() + i * alternatives@.len(),
            0 <= p < parts.len(),
            parts[p] matches ShapePart::Placeholder(ph) && ph.alternatives@ == alternatives@,
            literals(contents@).len() > 0,
            forall|k: int| 0 <= k < contents@.len() ==> admits(parts, p, #[trigger] contents@[k]),
            target == literals(contents@) + tail_target,
            distinct(collected@),
            forall|k: int| 0 <= k < collected@.len() ==> good(parts, target, #[trigger] collected@[k]@),
            forall|k: int| 0 <= k < tails@.len() ==> good(parts, tail_target, #[trigger] tails@[k]@),
            old(collected)@.len() > 0 ==> collected@.len() > 0,
            i > 0 && alternatives@.len() > 0 ==> collected@.len() > 0,
        decreases tails.len() - i,
    {
        let mut j: usize = 0;
        proof {
            lemma_capture_sources_widen(
                collected@,
                old(collected)@.len() as int,
                alternatives@,
                contents@,
                tails@.subrange(0, i as int),
                tails@.subrange(0, i + 1),
            );
        }
        while j < alternatives.len()
            invariant
                0 <= i < tails@.len(),
                0 <= j <= alternatives@.len(),
                collected@.len() >= old(collected)@.len(),
                collected@.subrange(0, old(collected)@.len() as int) == old(collected)@,
                forall|m: int, j2: int|
                    0 <= m < i && 0 <= j2 < alternatives@.len() ==> listed(
                        collected@,
                        captured_first(#[trigger] alternatives@[j2], contents@, keys_of(#[trigger] tails@[m]@)),
                    ),
                forall|j2: int|
                    0 <= j2 < j ==> listed(
                        collected@,
                        captured_first(#[trigger] alternatives@[j2], contents@, keys_of(tails@[i as int]@)),
                    ),
                forall|x: int|
                    old(collected)@.len() <= x < collected@.len() ==> from_captures(
                        alternatives@,
                        contents@,
                        keys_of(#[trigger] collected@[x]@),
                        tails@.subrange(0, i + 1),
                    ),
                collected@.len() <= old(collected)@.len() + i * alternatives@.len() + j,
                0 <= p < parts.len(),
                parts[p] matches ShapePart::Placeholder(ph) && ph.alternatives@ == alternatives@,
                literals(contents@).len() > 0,
                forall|k: int| 0 <= k < contents@.len() ==> admits(parts, p, #[trigger] contents@[k]),
                target == literals(contents@) + tail_target,
                distinct(collected@),
                forall|k: int| 0 <= k < collected@.len() ==> good(parts, target, #[trigger] collected@[k]@),
                forall|k: int| 0 <= k < tails@.len() ==> good(parts, tail_target, #[trigger] tails@[k]@),
                old(collected)@.len() > 0 ==> collected@.len() > 0,
                (i > 0 || j > 0) && alternatives@.len() > 0 ==> collected@.len() > 0,
            decreases alternatives.len() - j,
        {
            let mut item: Vec<Fragment> = copy_decomposition(&tails[i]);
            proof {
                lemma_copy_good(parts, tail_target, item@, tails@[i as int]@);
            }
            let ghost rest = item@;
            proof {
                assert(contents@.subrange(0, contents@.len() as int) =~= contents@);
            }
            let sub_rule: SubRule = alternatives[j].deep_copy();
            let captured: Vec<SymbolicChar> = copy_symbols(contents, 0, contents.len());
            proof {
                let ph = parts[p]->Placeholder_0;
                assert(same_capture(sub_rule, ph.alternatives@[j as int]));
                assert(captured_at(parts, p, sub_rule, captured@));
            }
            let capture: Fragment = Fragment::Capture { sub_rule, contents: captured };
            proof {
                assert(capture->sub_rule == sub_rule);
                assert(capture->contents@ == captured@);
                assert(captured_at(parts, p, capture->sub_rule, capture->contents@));
                assert(valid_fragment(parts, capture));
            }
            item.insert(0, capture);
            proof {
                assert(item@ =~= seq![capture] + rest);
                lemma_flat_cons(capture, rest);
                lemma_literals_add(contents@, flat(rest));
                assert forall|k: int| 0 <= k < item@.len() implies valid_fragment(parts, #[trigger] item@[k]) by {
                    if k > 0 {
                        assert(item@[k] == rest[k - 1]);
                    }
                }
            }
            let ghost before = collected@;
            let ghost item_keys = keys_of(item@);
            proof {
                assert(keys_of(item@) =~= captured_first(alternatives@[j as int], contents@, keys_of(tails@[i as int]@)));
            }
            insert_distinct(collected, item);
            proof {
                assert forall|k: int| 0 <= k < collected@.len() implies good(parts, target, #[trigger] collected@[k]@) by {
                    if k < before.len() {
                        assert(collected@[k] == before[k]);
                    }
                }
                assert(collected@.subrange(0, before.len() as int) =~= before);
                assert(collected@.subrange(0, old(collected)@.len() as int) =~= before.subrange(
                    0,
                    old(collected)@.len() as int,
                ));
                assert forall|m: int, j2: int|
                    0 <= m < i && 0 <= j2 < alternatives@.len() implies listed(
                    collected@,
                    captured_first(#[trigger] alternatives@[j2], contents@, keys_of(#[trigger] tails@[m]@)),
                ) by {
                    lemma_listed_grows(before, collected@, captured_first(alternatives@[j2], contents@, keys_of(tails@[m]@)));
                }
                assert forall|j2: int|
                    0 <= j2 < j + 1 implies listed(
                    collected@,
                    captured_first(#[trigger] alternatives@[j2], contents@, keys_of(tails@[i as int]@)),
                ) by {
                    if j2 < j {
                        lemma_listed_grows(before, collected@, captured_first(alternatives@[j2], contents@, keys_of(tails@[i as int]@)));
                    }
                }
                assert(tails@.subrange(0, i + 1)[i as int] == tails@[i as int]);
                lemma_capture_sources(
                    before,
                    collected@,
                    old(collected)@.len() as int,
                    item_keys,
                    alternatives@,
                    contents@,
                    tails@.subrange(0, i + 1),
                    i as int,
                    j as int,
                );
            }
            j = j + 1;
        }
        proof {
            assert(i * alternatives@.len() + alternatives@.len() == (i + 1) * alternatives@.len()) by (nonlinear_arith);
        }
        i = i + 1;
    }
    proof {
        assert(tails@.subrange(0, i as int) =~= tails@);
    }
}


/// The literals the decompositions from query position `q` must reproduce.
pub open spec fn target_from(symbols: Seq<SymbolicChar>, q: int) -> Seq<SymbolicChar> {
    literals(symbols.subrange(q, symbols.len() as int))
}

/// The most alternatives any placeholder of `parts` resolves to.
pub open spec fn most_alternatives(parts: Seq<ShapePart>) -> nat
    decreases parts.len(),
{
    if parts.len() == 0 {
        0
    } else {
        let rest = most_alternatives(parts.drop_last());
        let here: nat = match parts.last() {
            ShapePart::Placeholder(ph) => ph.alternatives@.len(),
            _ => 0,
        };
        if here > rest {
            here
        } else {
            rest
        }
    }
}

/// How far the decompositions of a state can branch in one step, at most: a
/// placeholder captures one of at most `n + 1` lengths, each by any of its
/// alternatives.
pub open spec fn branching(parts: Seq<ShapePart>, n: nat) -> nat {
    (n + 2) * (most_alternatives(parts) + 1)
}

/// A bound on the decompositions listed for state `(q, a)`: each step to a
/// successor advances a cursor, so at most `branching` to the power of the
/// distance left.
pub open spec fn list_bound(parts: Seq<ShapePart>, symbols: Seq<SymbolicChar>, atoms: Seq<Atom>, q: int, a: int) -> int {
    pow(branching(parts, symbols.len()) as int, ((symbols.len() - q) + (atoms.len() - a)) as nat)
}

/// A budget with room for every decomposition of every state, for a query
/// of `n` symbols against `na` atoms: enumerating within it cannot run out.
pub open spec fn ample(budget: Budget, parts: Seq<ShapePart>, n: nat, na: nat) -> bool {
    let most = pow(branching(parts, n) as int, n + na);
    &&& budget.max_alignments >= most
    &&& budget.max_partial_alignments >= (n + 1) * (na + 1) * most
}

proof fn lemma_most_alternatives(parts: Seq<ShapePart>, p: int)
    requires
        0 <= p < parts.len(),
    ensures
        parts[p] matches ShapePart::Placeholder(ph) ==> ph.alternatives@.len() <= most_alternatives(parts),
    decreases parts.len(),
{
    if p < parts.len() - 1 {
        lemma_most_alternatives(parts.drop_last(), p);
        assert(parts.drop_last()[p] == parts[p]);
    }
}

/// The bound of a successor, `f` steps from the end, is at most the bound
/// `e - 1` steps from the end, and the bound `e` steps from the end is
/// `m` times that.
proof fn lemma_bound_step(m: nat, e: nat, f: nat)
    requires
        m >= 2,
        f < e,
    ensures
        1 <= pow(m as int, f),
        pow(m as int, f) <= pow(m as int, (e - 1) as nat),
        pow(m as int, e) == m * pow(m as int, (e - 1) as nat),
{
    lemma_pow_positive(m as int, f);
    lemma_pow_increases(m, f, (e - 1) as nat);
    reveal(pow);
}

/// The decompositions listed for state `(q, a)` are good and distinct, and
/// some are listed when the state is reachable (and every placeholder
/// resolves); there are at most [`list_bound`] of them.
pub open spec fn state_ok(
    parts: Seq<ShapePart>,
    symbols: Seq<SymbolicChar>,
    atoms: Seq<Atom>,
    anchored: bool,
    list: Seq<Vec<Fragment>>,
    q: int,
    a: int,
) -> bool {
    &&& forall|i: int| 0 <= i < list.len() ==> good(parts, target_from(symbols, q), #[trigger] list[i]@)
    &&& distinct(list)
    &&& (has_alternatives(parts) && reach(parts, symbols, atoms, anchored, q, a)) ==> list.len() > 0
    &&& list.len() <= list_bound(parts, symbols, atoms, q, a)
    &&& forall|ks: Seq<(Option<(RuleIdx, u16)>, Seq<SymbolicChar>)>|
        #[trigger] derives(parts, symbols, atoms, anchored, q, a, ks) ==> listed(list, ks)
    &&& forall|i: int| 0 <= i < list.len() ==> derives(parts, symbols, atoms, anchored, q, a, keys_of(#[trigger] list[i]@))
}

/// Every state from atom `from` on has been enumerated.
pub open spec fn enumerated(
    parts: Seq<ShapePart>,
    symbols: Seq<SymbolicChar>,
    atoms: Seq<Atom>,
    anchored: bool,
    suffixes: Seq<Vec<Vec<Vec<Fragment>>>>,
    from: int,
) -> bool {
    &&& forall|a: int| from <= a <= atoms.len() ==> (#[trigger] suffixes[a])@.len() == symbols.len() + 1
    &&& forall|a: int, q: int|
        from <= a <= atoms.len() && 0 <= q <= symbols.len() ==> #[trigger] state_ok(
            parts,
            symbols,
            atoms,
            anchored,
            suffixes[a]@[q]@,
            q,
            a,
        )
}

proof fn lemma_target_split(symbols: Seq<SymbolicChar>, q: int, len: int)
    requires
        0 <= q <= q + len <= symbols.len(),
    ensures
        target_from(symbols, q) == literals(symbols.subrange(q, q + len)) + target_from(symbols, q + len),
{
    assert(symbols.subrange(q, symbols.len() as int) =~= symbols.subrange(q, q + len) + symbols.subrange(
        q + len,
        symbols.len() as int,
    ));
    lemma_literals_add(symbols.subrange(q, q + len), symbols.subrange(q + len, symbols.len() as int));
}

proof fn lemma_target_step(symbols: Seq<SymbolicChar>, q: int)
    requires
        0 <= q < symbols.len(),
    ensures
        target_from(symbols, q) == literals(seq![symbols[q]]) + target_from(symbols, q + 1),
{
    lemma_target_split(symbols, q, 1);
    assert(symbols.subrange(q, q + 1) =~= seq![symbols[q]]);
}

/// Whether every symbol is a wildcard.
fn all_wildcards(symbols: &Vec<SymbolicChar>) -> (r: bool)
    ensures
        r == forall|k: int| 0 <= k < symbols@.len() ==> (#[trigger] symbols@[k]) is GlobStar,
{
    let mut i: usize = 0;
    while i < symbols.len()
        invariant
            0 <= i <= symbols@.len(),
            forall|k: int| 0 <= k < i ==> (#[trigger] symbols@[k]) is GlobStar,
        decreases symbols.len() - i,
    {
        if !symbols[i].is_wildcard() {
            return false;
        }
        i = i + 1;
    }
    true
}

/// The decompositions of the rest of the query from state `(q, a)`, built
/// from those of its successors.
#[verifier::rlimit(40)]
fn collect_state(
    model: &ShapeModel,
    symbols: &Vec<SymbolicChar>,
    atoms: &Vec<Atom>,
    anchored: bool,
    suffixes: &Vec<Vec<Vec<Vec<Fragment>>>>,
    column: &Vec<Vec<Vec<Fragment>>>,
    q: usize,
    a: usize,
) -> (collected: Vec<Vec<Fragment>>)
    requires
        atoms@ == atoms_of(model.parts@),
        symbols@.len() < usize::MAX,
        atoms@.len() < usize::MAX,
        forall|k: int|
            0 <= k < atoms@.len() ==> (#[trigger] atoms@[k] matches Atom::Rule(p) ==> p < model.parts@.len()
                && model.parts@[p as int] is Placeholder),
        q <= symbols@.len(),
        a <= atoms@.len(),
        suffixes@.len() == atoms@.len() + 1,
        enumerated(model.parts@, symbols@, atoms@, anchored, suffixes@, a + 1),
        column@.len() == symbols@.len() + 1,
        forall|x: int|
            q < x <= symbols@.len() ==> #[trigger] state_ok(
                model.parts@,
                symbols@,
                atoms@,
                anchored,
                column@[x]@,
                x,
                a as int,
            ),
    ensures
        state_ok(model.parts@, symbols@, atoms@, anchored, collected@, q as int, a as int),
{
    let ghost parts = model.parts@;
    let ghost target = target_from(symbols@, q as int);
    let n: usize = symbols.len();
    let na: usize = atoms.len();
    let ghost ma: nat = most_alternatives(parts);
    let ghost m: nat = branching(parts, n as nat);
    let ghost e: nat = ((n - q) + (na - a)) as nat;
    proof {
        assert(m >= 2) by (nonlinear_arith)
            requires
                m == (n + 2) * (ma + 1),
        ;
        assert(list_bound(parts, symbols@, atoms@, q as int, a as int) == pow(m as int, e));
    }
    let mut collected: Vec<Vec<Fragment>> = Vec::new();
    if q == n {
        if !anchored || can_stop_from(atoms, a) {
            collected.push(Vec::new());
            proof {
                assert(symbols@.subrange(q as int, q as int) =~= Seq::<SymbolicChar>::empty());
                assert(flat(collected@[0]@) =~= Seq::<SymbolicChar>::empty());
                assert(good(parts, target, collected@[0]@));
                assert(keys_of(collected@[0]@) =~= Seq::<(Option<(RuleIdx, u16)>, Seq<SymbolicChar>)>::empty());
                assert forall|ks: Seq<(Option<(RuleIdx, u16)>, Seq<SymbolicChar>)>|
                    #[trigger] derives(parts, symbols@, atoms@, anchored, q as int, a as int, ks) implies listed(
                    collected@,
                    ks,
                ) by {
                    assert(ks =~= keys_of(collected@[0]@));
                }
                assert(derives(parts, symbols@, atoms@, anchored, q as int, a as int, keys_of(collected@[0]@)));
            }
        } else {
            proof {
                assert(!accepting(symbols@, atoms@, anchored, q as int, a as int));
            }
        }
        proof {
            lemma_pow_positive(m as int, e);
        }
        return collected;
    }
    proof {
        assert(!accepting(symbols@, atoms@, anchored, q as int, a as int));
        lemma_target_step(symbols@, q as int);
    }
    let symbol: SymbolicChar = symbols[q];
    if a == na {
        proof {
            lemma_bound_step(m, e, (e - 1) as nat);
            let x = pow(m as int, (e - 1) as nat);
            assert(m * x >= x) by (nonlinear_arith)
                requires
                    m >= 2,
                    x >= 1,
            ;
            assert(list_bound(parts, symbols@, atoms@, q + 1, a as int) == x);
        }
        if symbol == SymbolicChar::GlobStar {
            proof {
                assert(state_ok(parts, symbols@, atoms@, anchored, column@[q + 1]@, q + 1, a as int));
            }
            extend_symbol(
                &mut collected,
                &column[q + 1],
                SymbolicChar::GlobStar,
                Ghost(parts),
                Ghost(target),
                Ghost(target_from(symbols@, q + 1)),
            );
            proof {
                assert forall|ks: Seq<(Option<(RuleIdx, u16)>, Seq<SymbolicChar>)>|
                    #[trigger] derives(parts, symbols@, atoms@, anchored, q as int, a as int, ks) implies listed(
                    collected@,
                    ks,
                ) by {
                    let r = choose|r: Seq<(Option<(RuleIdx, u16)>, Seq<SymbolicChar>)>|
                        derives(parts, symbols@, atoms@, anchored, q + 1, a as int, r) && ks == #[trigger] prepended(
                            SymbolicChar::GlobStar,
                            r,
                        );
                    lemma_listed_prepended(column@[q + 1]@, collected@, SymbolicChar::GlobStar, r);
                }
                assert forall|x: int| 0 <= x < collected@.len() implies derives(
                    parts,
                    symbols@,
                    atoms@,
                    anchored,
                    q as int,
                    a as int,
                    keys_of(#[trigger] collected@[x]@),
                ) by {
                    let tl = column@[q + 1]@;
                    let mm = choose|mm: int| 0 <= mm < tl.len() && keys_of(collected@[x]@) == prepended(SymbolicChar::GlobStar, keys_of(#[trigger] tl[mm]@));
                    assert(derives(parts, symbols@, atoms@, anchored, q + 1, a as int, keys_of(tl[mm]@)));
                }
            }
        }
        return collected;
    }
    proof {
        assert(state_ok(parts, symbols@, atoms@, anchored, suffixes@[a + 1]@[q + 1]@, q + 1, a + 1));
        assert(state_ok(parts, symbols@, atoms@, anchored, suffixes@[a + 1]@[q as int]@, q as int, a + 1));
        lemma_bound_step(m, e, (e - 2) as nat);
        lemma_bound_step(m, e, (e - 1) as nat);
        let x = pow(m as int, (e - 1) as nat);
        assert(m * x >= 2 * x) by (nonlinear_arith)
            requires
                m >= 2,
                x >= 1,
        ;
        assert(list_bound(parts, symbols@, atoms@, q + 1, a + 1) == pow(m as int, (e - 2) as nat));
        assert(list_bound(parts, symbols@, atoms@, q as int, a + 1) == x);
        assert(list_bound(parts, symbols@, atoms@, q + 1, a as int) == x);
    }
    match atoms[a] {
        Atom::Text(expected) => match symbol {
            SymbolicChar::Literal(c) => {
                if crate::text::char_code(c) == expected {
                    extend_symbol(
                        &mut collected,
                        &suffixes[a + 1][q + 1],
                        symbol,
                        Ghost(parts),
                        Ghost(target),
                        Ghost(target_from(symbols@, q + 1)),
                    );
                    proof {
                        assert forall|ks: Seq<(Option<(RuleIdx, u16)>, Seq<SymbolicChar>)>|
                            #[trigger] derives(parts, symbols@, atoms@, anchored, q as int, a as int, ks) implies listed(
                            collected@,
                            ks,
                        ) by {
                            let r = choose|r: Seq<(Option<(RuleIdx, u16)>, Seq<SymbolicChar>)>|
                                derives(parts, symbols@, atoms@, anchored, q + 1, a + 1, r) && ks == #[trigger] prepended(
                                    symbols@[q as int],
                                    r,
                                );
                            lemma_listed_prepended(suffixes@[a + 1]@[q + 1]@, collected@, symbol, r);
                        }
                        assert forall|x: int| 0 <= x < collected@.len() implies derives(
                            parts,
                            symbols@,
                            atoms@,
                            anchored,
                            q as int,
                            a as int,
                            keys_of(#[trigger] collected@[x]@),
                        ) by {
                            let tl = suffixes@[a + 1]@[q + 1]@;
                            let mm = choose|mm: int| 0 <= mm < tl.len() && keys_of(collected@[x]@) == prepended(symbol, keys_of(#[trigger] tl[mm]@));
                            assert(derives(parts, symbols@, atoms@, anchored, q + 1, a + 1, keys_of(tl[mm]@)));
                        }
                    }
                }
            },
            SymbolicChar::GlobStar => {
                proof {
                    lemma_literals_single(symbol);
                    assert(target == target_from(symbols@, q + 1));
                    assert(target =~= literals(seq![symbol]) + target);
                    assert(state_ok(parts, symbols@, atoms@, anchored, column@[q + 1]@, q + 1, a as int));
                }
                extend_symbol(
                    &mut collected,
                    &suffixes[a + 1][q],
                    symbol,
                    Ghost(parts),
                    Ghost(target),
                    Ghost(target),
                );
                let ghost mid = collected@;
                extend_plain(&mut collected, &column[q + 1], Ghost(parts), Ghost(target));
                proof {
                    assert forall|ks: Seq<(Option<(RuleIdx, u16)>, Seq<SymbolicChar>)>|
                        #[trigger] derives(parts, symbols@, atoms@, anchored, q as int, a as int, ks) implies listed(
                        collected@,
                        ks,
                    ) by {
                        if derives(parts, symbols@, atoms@, anchored, q + 1, a as int, ks) {
                            lemma_listed_plain(column@[q + 1]@, collected@, ks);
                        } else {
                            let r = choose|r: Seq<(Option<(RuleIdx, u16)>, Seq<SymbolicChar>)>|
                                derives(parts, symbols@, atoms@, anchored, q as int, a + 1, r) && ks == #[trigger] prepended(
                                    SymbolicChar::GlobStar,
                                    r,
                                );
                            lemma_listed_prepended(suffixes@[a + 1]@[q as int]@, mid, SymbolicChar::GlobStar, r);
                            lemma_listed_grows(mid, collected@, ks);
                        }
                    }
                    assert forall|x: int| 0 <= x < collected@.len() implies derives(
                        parts,
                        symbols@,
                        atoms@,
                        anchored,
                        q as int,
                        a as int,
                        keys_of(#[trigger] collected@[x]@),
                    ) by {
                        if x < mid.len() {
                            assert(collected@.subrange(0, mid.len() as int)[x] == collected@[x]);
                            let tl = suffixes@[a + 1]@[q as int]@;
                            let mm = choose|mm: int| 0 <= mm < tl.len() && keys_of(mid[x]@) == prepended(SymbolicChar::GlobStar, keys_of(#[trigger] tl[mm]@));
                            assert(derives(parts, symbols@, atoms@, anchored, q as int, a + 1, keys_of(tl[mm]@)));
                        } else {
                            let tl = column@[q + 1]@;
                            let mm = choose|mm: int| 0 <= mm < tl.len() && keys_of(collected@[x]@) == keys_of(#[trigger] tl[mm]@);
                            assert(derives(parts, symbols@, atoms@, anchored, q + 1, a as int, keys_of(tl[mm]@)));
                        }
                    }
                }
            },
        },
        Atom::Rule(part) => {
            proof {
                assert(atoms@[a as int] == Atom::Rule(part));
            }
            let longest: usize = max_capture_length(model, part, symbols, q);
            let mut len: usize = 0;
            while len <= longest
                invariant
                    0 <= len <= longest + 1,
                    q + longest <= n,
                    n == symbols@.len(),
                    n < usize::MAX,
                    q < n,
                    a < atoms@.len(),
                    na == atoms@.len(),
                    parts == model.parts@,
                    part < parts.len(),
                    parts[part as int] is Placeholder,
                    atoms@[a as int] == Atom::Rule(part),
                    longest == max_capture(parts, part as int, symbols@, q as int),
                    target == target_from(symbols@, q as int),
                    suffixes@.len() == atoms@.len() + 1,
                    enumerated(parts, symbols@, atoms@, anchored, suffixes@, a + 1),
                    distinct(collected@),
                    forall|k: int| 0 <= k < collected@.len() ==> good(parts, target, #[trigger] collected@[k]@),
                    ma == most_alternatives(parts),
                    m == branching(parts, n as nat),
                    e == ((n - q) + (na - a)) as nat,
                    m >= 2,
                    collected@.len() <= len * ((ma + 1) * pow(m as int, (e - 1) as nat)),
                    forall|ks: Seq<(Option<(RuleIdx, u16)>, Seq<SymbolicChar>)>|
                        #[trigger] derives_any(parts, symbols@, atoms@, anchored, q as int, a as int, part as int, q + len - 1, ks)
                            ==> listed(collected@, ks),
                    forall|x: int|
                        0 <= x < collected@.len() ==> derives_any(
                            parts,
                            symbols@,
                            atoms@,
                            anchored,
                            q as int,
                            a as int,
                            part as int,
                            q + len - 1,
                            keys_of(#[trigger] collected@[x]@),
                        ),
                    (has_alternatives(parts) && exists|t: int|
                        q <= t < q + len && #[trigger] reach(parts, symbols@, atoms@, anchored, t, a + 1))
                        ==> collected@.len() > 0,
                decreases longest + 1 - len,
            {
                let ghost after = target_from(symbols@, q + len);
                let ghost x = pow(m as int, (e - 1) as nat);
                let ghost y = (ma + 1) * x;
                proof {
                    assert(state_ok(parts, symbols@, atoms@, anchored, suffixes@[a + 1]@[q + len]@, q + len, a + 1));
                    lemma_bound_step(m, e, (e - 1 - len) as nat);
                    assert(list_bound(parts, symbols@, atoms@, q + len, a + 1) == pow(m as int, (e - 1 - len) as nat));
                    assert(y >= x) by (nonlinear_arith)
                        requires
                            x >= 1,
                            y == (ma + 1) * x,
                    ;
                    lemma_most_alternatives(parts, part as int);
                    lemma_target_split(symbols@, q as int, len as int);
                    lemma_max_capture_admits(parts, part as int, symbols@, q as int, len as int);
                }
                let ghost before_len = collected@.len();
                let ghost before_list = collected@;
                proof {
                    assert(state_ok(parts, symbols@, atoms@, anchored, suffixes@[a + 1]@[q + len]@, q + len, a + 1));
                }
                if len == 0 {
                    proof {
                        assert(symbols@.subrange(q as int, q as int) =~= Seq::<SymbolicChar>::empty());
                        assert(target =~= after);
                    }
                    extend_plain(&mut collected, &suffixes[a + 1][q + len], Ghost(parts), Ghost(target));
                    proof {
                        assert forall|ks: Seq<(Option<(RuleIdx, u16)>, Seq<SymbolicChar>)>|
                            #[trigger] derives_any(parts, symbols@, atoms@, anchored, q as int, a as int, part as int, q + len, ks)
                            implies listed(collected@, ks) by {
                            if derives_any(parts, symbols@, atoms@, anchored, q as int, a as int, part as int, q + len - 1, ks) {
                                lemma_listed_grows(before_list, collected@, ks);
                            } else {
                                assert(derives(parts, symbols@, atoms@, anchored, q + len, a + 1, ks));
                                lemma_listed_plain(suffixes@[a + 1]@[q + len]@, collected@, ks);
                            }
                        }
                    }
                    proof {
                        assert forall|x: int| 0 <= x < collected@.len() implies derives_any(
                            parts,
                            symbols@,
                            atoms@,
                            anchored,
                            q as int,
                            a as int,
                            part as int,
                            q + len,
                            keys_of(#[trigger] collected@[x]@),
                        ) by {
                            if x < before_list.len() {
                                assert(collected@.subrange(0, before_list.len() as int)[x] == collected@[x]);
                                assert(derives_any(parts, symbols@, atoms@, anchored, q as int, a as int, part as int, q + len - 1, keys_of(before_list[x]@)));
                            } else {
                                let tl = suffixes@[a + 1]@[q + len]@;
                                let mm = choose|mm: int| 0 <= mm < tl.len() && keys_of(collected@[x]@) == keys_of(#[trigger] tl[mm]@);
                                assert(derives(parts, symbols@, atoms@, anchored, q + len, a + 1, keys_of(tl[mm]@)));
                            }
                        }
                    }
                } else {
                    let consumed: Vec<SymbolicChar> = copy_symbols(symbols, q, q + len);
                    proof {
                        lemma_literals_none(consumed@);
                    }
                    if all_wildcards(&consumed) {
                        proof {
                            lemma_literals_single(SymbolicChar::GlobStar);
                            assert(target =~= literals(seq![SymbolicChar::GlobStar]) + after);
                        }
                        extend_symbol(
                            &mut collected,
                            &suffixes[a + 1][q + len],
                            SymbolicChar::GlobStar,
                            Ghost(parts),
                            Ghost(target),
                            Ghost(after),
                        );
                        proof {
                            assert forall|k: int| q <= k < q + len implies (#[trigger] symbols@[k]) is GlobStar by {
                                assert(consumed@[k - q] == symbols@[k]);
                            }
                        }
                    proof {
                        assert forall|ks: Seq<(Option<(RuleIdx, u16)>, Seq<SymbolicChar>)>|
                            #[trigger] derives_any(parts, symbols@, atoms@, anchored, q as int, a as int, part as int, q + len, ks)
                            implies listed(collected@, ks) by {
                            if derives_any(parts, symbols@, atoms@, anchored, q as int, a as int, part as int, q + len - 1, ks) {
                                lemma_listed_grows(before_list, collected@, ks);
                            } else {
                                let r = choose|r: Seq<(Option<(RuleIdx, u16)>, Seq<SymbolicChar>)>|
                                    derives(parts, symbols@, atoms@, anchored, q + len, a + 1, r) && ks == #[trigger] prepended(
                                        SymbolicChar::GlobStar,
                                        r,
                                    );
                                lemma_listed_prepended(suffixes@[a + 1]@[q + len]@, collected@, SymbolicChar::GlobStar, r);
                            }
                        }
                    }
                    proof {
                        assert forall|x: int| 0 <= x < collected@.len() implies derives_any(
                            parts,
                            symbols@,
                            atoms@,
                            anchored,
                            q as int,
                            a as int,
                            part as int,
                            q + len,
                            keys_of(#[trigger] collected@[x]@),
                        ) by {
                            if x < before_list.len() {
                                assert(collected@.subrange(0, before_list.len() as int)[x] == collected@[x]);
                                assert(derives_any(parts, symbols@, atoms@, anchored, q as int, a as int, part as int, q + len - 1, keys_of(before_list[x]@)));
                            } else {
                                let tl = suffixes@[a + 1]@[q + len]@;
                                let mm = choose|mm: int| 0 <= mm < tl.len() && keys_of(collected@[x]@) == prepended(SymbolicChar::GlobStar, keys_of(#[trigger] tl[mm]@));
                                assert(derives(parts, symbols@, atoms@, anchored, q + len, a + 1, keys_of(tl[mm]@)));
                            }
                        }
                    }
                    } else {
                        match &model.parts[part] {
                            ShapePart::Placeholder(placeholder) => {
                                proof {
                                    let tl = suffixes@[a + 1]@[q + len]@.len();
                                    let al = placeholder.alternatives@.len();
                                    assert(tl * al <= y) by (nonlinear_arith)
                                        requires
                                            tl <= x,
                                            al <= ma,
                                            y == (ma + 1) * x,
                                            x >= 1,
                                    ;
                                    assert forall|k: int| 0 <= k < consumed@.len() implies admits(
                                        parts,
                                        part as int,
                                        #[trigger] consumed@[k],
                                    ) by {
                                        assert(consumed@[k] == symbols@[q + k]);
                                    }
                                }
                                extend_capture(
                                    &mut collected,
                                    &suffixes[a + 1][q + len],
                                    &placeholder.alternatives,
                                    &consumed,
                                    Ghost(parts),
                                    Ghost(part as int),
                                    Ghost(target),
                                    Ghost(after),
                                );
                                proof {
                                    assert(!(forall|k: int| q <= k < q + len ==> (#[trigger] symbols@[k]) is GlobStar)) by {
                                        let k0 = choose|k0: int| 0 <= k0 < consumed@.len() && !((#[trigger] consumed@[k0]) is GlobStar);
                                        assert(consumed@[k0] == symbols@[q + k0]);
                                    }
                                    assert(parts[part as int]->Placeholder_0.alternatives@ == placeholder.alternatives@);
                                }
                    proof {
                        assert forall|ks: Seq<(Option<(RuleIdx, u16)>, Seq<SymbolicChar>)>|
                            #[trigger] derives_any(parts, symbols@, atoms@, anchored, q as int, a as int, part as int, q + len, ks)
                            implies listed(collected@, ks) by {
                            if derives_any(parts, symbols@, atoms@, anchored, q as int, a as int, part as int, q + len - 1, ks) {
                                lemma_listed_grows(before_list, collected@, ks);
                            } else {
                                let rest = ks.drop_first();
                                assert(derives(parts, symbols@, atoms@, anchored, q + len, a + 1, rest));
                                let j = choose|j: int|
                                    0 <= j < parts[part as int]->Placeholder_0.alternatives@.len() && ks == captured_first(
                                        #[trigger] parts[part as int]->Placeholder_0.alternatives@[j],
                                        symbols@.subrange(q as int, q + len),
                                        rest,
                                    );
                                lemma_listed_captured(
                                    suffixes@[a + 1]@[q + len]@,
                                    collected@,
                                    placeholder.alternatives@,
                                    consumed@,
                                    j,
                                    rest,
                                );
                            }
                        }
                    }
                    proof {
                        assert forall|x: int| 0 <= x < collected@.len() implies derives_any(
                            parts,
                            symbols@,
                            atoms@,
                            anchored,
                            q as int,
                            a as int,
                            part as int,
                            q + len,
                            keys_of(#[trigger] collected@[x]@),
                        ) by {
                            if x < before_list.len() {
                                assert(collected@.subrange(0, before_list.len() as int)[x] == collected@[x]);
                                assert(derives_any(parts, symbols@, atoms@, anchored, q as int, a as int, part as int, q + len - 1, keys_of(before_list[x]@)));
                            } else {
                                reveal(from_captures);
                                let tl = suffixes@[a + 1]@[q + len]@;
                                let alts = placeholder.alternatives@;
                                let (mm, jj) = choose|mm: int, jj: int|
                                    0 <= mm < tl.len() && 0 <= jj < alts.len() && keys_of(collected@[x]@) == captured_first(
                                        #[trigger] alts[jj],
                                        consumed@,
                                        keys_of(#[trigger] tl[mm]@),
                                    );
                                let ks = keys_of(collected@[x]@);
                                assert(ks.drop_first() =~= keys_of(tl[mm]@));
                                assert(derives(parts, symbols@, atoms@, anchored, q + len, a + 1, ks.drop_first()));
                                assert(consumed@ == symbols@.subrange(q as int, q + len));
                                assert(ks == captured_first(parts[part as int]->Placeholder_0.alternatives@[jj], symbols@.subrange(q as int, q + len), ks.drop_first()));
                            }
                        }
                    }
                            },
                            ShapePart::Static(_) => {
                                proof {
                                    assert(false);
                                }
                            },
                        }
                    }
                }
                proof {
                    assert(collected@.len() <= before_len + y);
                    assert(len * y + y == (len + 1) * y) by (nonlinear_arith);
                    if has_alternatives(parts) && exists|t: int|
                        q <= t < q + len + 1 && #[trigger] reach(parts, symbols@, atoms@, anchored, t, a + 1) {
                        let t = choose|t: int|
                            q <= t < q + len + 1 && #[trigger] reach(parts, symbols@, atoms@, anchored, t, a + 1);
                        if t < q + len {
                            assert(before_len > 0);
                        } else {
                            assert(suffixes@[a + 1]@[q + len]@.len() > 0);
                            assert(parts[part as int] matches ShapePart::Placeholder(ph) && ph.alternatives@.len() > 0);
                        }
                    }
                }
                len = len + 1;
            }
            proof {
                lemma_reach_any(parts, symbols@, atoms@, anchored, q as int, a as int, q + longest);
                assert forall|ks: Seq<(Option<(RuleIdx, u16)>, Seq<SymbolicChar>)>|
                    #[trigger] derives(parts, symbols@, atoms@, anchored, q as int, a as int, ks) implies listed(
                    collected@,
                    ks,
                ) by {
                    assert(derives_any(parts, symbols@, atoms@, anchored, q as int, a as int, part as int, q + longest, ks));
                    assert(q + longest == q + len - 1);
                }
                assert forall|x: int| 0 <= x < collected@.len() implies derives(
                    parts,
                    symbols@,
                    atoms@,
                    anchored,
                    q as int,
                    a as int,
                    keys_of(#[trigger] collected@[x]@),
                ) by {
                    assert(q + longest == q + len - 1);
                    assert(derives_any(parts, symbols@, atoms@, anchored, q as int, a as int, part as int, q + longest, keys_of(collected@[x]@)));
                }
                lemma_bound_step(m, e, (e - 1) as nat);
                let x = pow(m as int, (e - 1) as nat);
                let cl = collected@.len();
                assert(cl <= m * x) by (nonlinear_arith)
                    requires
                        cl <= (longest + 1) * ((ma + 1) * x),
                        longest + q <= n,
                        q < n,
                        m == (n + 2) * (ma + 1),
                        x >= 1,
                ;
            }
        },
    }
    collected
}


/// No two alignments with the same fragments.
pub open spec fn distinct_alignments(v: Seq<Alignment>) -> bool {
    forall|i: int, j: int|
        0 <= i < j < v.len() ==> !same_fragments(#[trigger] v[i].fragments@, #[trigger] v[j].fragments@)
}

/// Collects the decompositions of the reachable states, successors first,
/// within `budget`.
#[verifier::rlimit(40)]
fn enumerate(
    model: &ShapeModel,
    symbols: &Vec<SymbolicChar>,
    atoms: &Vec<Atom>,
    anchored: bool,
    table: &Vec<Vec<bool>>,
    budget: Budget,
) -> (r: Outcome)
    requires
        atoms@ == atoms_of(model.parts@),
        symbols@.len() < usize::MAX,
        atoms@.len() < usize::MAX,
        forall|k: int|
            0 <= k < atoms@.len() ==> (#[trigger] atoms@[k] matches Atom::Rule(p) ==> p < model.parts@.len()
                && model.parts@[p as int] is Placeholder),
        table@.len() == atoms@.len() + 1,
        solved(model.parts@, symbols@, atoms@, anchored, table@, 0),
    ensures
        r is Rejected ==> !(has_alternatives(model.parts@) && reach(model.parts@, symbols@, atoms@, anchored, 0, 0)),
        r matches Outcome::Approximate(v) ==> {
            &&& v@.len() > 0
            &&& v@.len() <= budget.max_alignments
            &&& distinct_alignments(v@)
            &&& forall|i: int|
                0 <= i < v@.len() ==> good(model.parts@, literals(symbols@), #[trigger] v@[i].fragments@)
        },
        ample(budget, model.parts@, symbols@.len(), atoms@.len()) ==> !(r is Unknown),
        r matches Outcome::Approximate(v) ==> forall|ks: Seq<(Option<(RuleIdx, u16)>, Seq<SymbolicChar>)>|
            #[trigger] derives(model.parts@, symbols@, atoms@, anchored, 0, 0, ks) ==> exists|i: int|
                0 <= i < v@.len() && #[trigger] keys_of(v@[i].fragments@) == ks,
        r matches Outcome::Approximate(v) ==> forall|i: int|
            0 <= i < v@.len() ==> derives(model.parts@, symbols@, atoms@, anchored, 0, 0, keys_of(#[trigger] v@[i].fragments@)),
{
    let ghost parts = model.parts@;
    let n: usize = symbols.len();
    let na: usize = atoms.len();
    let mut suffixes: Vec<Vec<Vec<Vec<Fragment>>>> = Vec::new();
    let mut k: usize = 0;
    while k <= na
        invariant
            0 <= k <= na + 1,
            na < usize::MAX,
            suffixes@.len() == k,
        decreases na + 1 - k,
    {
        suffixes.push(Vec::new());
        k = k + 1;
    }
    let mut materialized: usize = 0;
    let ghost bm: nat = branching(parts, n as nat);
    let ghost mm: nat = most_alternatives(parts);
    let ghost t: int = pow(bm as int, (n + na) as nat);
    let ghost fits: bool = ample(budget, parts, n as nat, na as nat);
    proof {
        assert(bm >= 2) by (nonlinear_arith)
            requires
                bm == (n + 2) * (mm + 1),
        ;
        lemma_pow_positive(bm as int, (n + na) as nat);
    }
    let mut a: usize = na + 1;
    while a > 0
        invariant
            0 <= a <= na + 1,
            bm == branching(parts, n as nat),
            bm >= 2,
            t == pow(bm as int, (n + na) as nat),
            t >= 1,
            fits == ample(budget, parts, n as nat, na as nat),
            fits ==> materialized <= (na + 1 - a) * ((n + 1) * t),
            na == atoms@.len(),
            n == symbols@.len(),
            n < usize::MAX,
            na < usize::MAX,
            parts == model.parts@,
            atoms@ == atoms_of(parts),
            forall|k: int|
                0 <= k < atoms@.len() ==> (#[trigger] atoms@[k] matches Atom::Rule(p) ==> p < parts.len()
                    && parts[p as int] is Placeholder),
            table@.len() == na + 1,
            solved(parts, symbols@, atoms@, anchored, table@, 0),
            suffixes@.len() == na + 1,
            enumerated(parts, symbols@, atoms@, anchored, suffixes@, a as int),
            materialized <= budget.max_partial_alignments,
        decreases a,
    {
        a = a - 1;
        let mut column: Vec<Vec<Vec<Fragment>>> = Vec::new();
        let mut j: usize = 0;
        while j <= n
            invariant
                0 <= j <= n + 1,
                n < usize::MAX,
                column@.len() == j,
                forall|x: int| 0 <= x < j ==> (#[trigger] column@[x])@.len() == 0,
            decreases n + 1 - j,
        {
            column.push(Vec::new());
            j = j + 1;
        }
        let mut q: usize = n + 1;
        proof {
            assert((na + 1 - (a + 1)) * ((n + 1) * t) == (na - a) * ((n + 1) * t) + (n + 1 - q) * t) by (nonlinear_arith)
                requires
                    q == n + 1,
            ;
        }
        while q > 0
            invariant
                0 <= q <= n + 1,
                a <= na,
                bm == branching(parts, n as nat),
                bm >= 2,
                t == pow(bm as int, (n + na) as nat),
                t >= 1,
                fits == ample(budget, parts, n as nat, na as nat),
                fits ==> materialized <= (na - a) * ((n + 1) * t) + (n + 1 - q) * t,
                na == atoms@.len(),
                n == symbols@.len(),
                n < usize::MAX,
                na < usize::MAX,
                parts == model.parts@,
                atoms@ == atoms_of(parts),
                forall|k: int|
                    0 <= k < atoms@.len() ==> (#[trigger] atoms@[k] matches Atom::Rule(p) ==> p < parts.len()
                        && parts[p as int] is Placeholder),
                table@.len() == na + 1,
                solved(parts, symbols@, atoms@, anchored, table@, 0),
                suffixes@.len() == na + 1,
                enumerated(parts, symbols@, atoms@, anchored, suffixes@, a + 1),
                column@.len() == n + 1,
                forall|x: int|
                    q <= x <= n ==> #[trigger] state_ok(parts, symbols@, atoms@, anchored, column@[x]@, x, a as int),
                materialized <= budget.max_partial_alignments,
            decreases q,
        {
            q = q - 1;
            proof {
                assert(table@[a as int]@[q as int] == reach(parts, symbols@, atoms@, anchored, q as int, a as int));
            }
            let collected: Vec<Vec<Fragment>> = if table[a][q] {
                collect_state(model, symbols, atoms, anchored, &suffixes, &column, q, a)
            } else {
                let empty: Vec<Vec<Fragment>> = Vec::new();
                proof {
                    lemma_pow_positive(bm as int, ((n - q) + (na - a)) as nat);
                    assert forall|ks: Seq<(Option<(RuleIdx, u16)>, Seq<SymbolicChar>)>|
                        #[trigger] derives(parts, symbols@, atoms@, anchored, q as int, a as int, ks) implies listed(
                        empty@,
                        ks,
                    ) by {
                        lemma_derives_reach(parts, symbols@, atoms@, anchored, q as int, a as int, ks);
                    }
                    assert(state_ok(parts, symbols@, atoms@, anchored, empty@, q as int, a as int));
                }
                empty
            };
            proof {
                lemma_pow_increases(bm, ((n - q) + (na - a)) as nat, (n + na) as nat);
                assert(list_bound(parts, symbols@, atoms@, q as int, a as int) == pow(bm as int, ((n - q) + (na - a)) as nat));
                assert(collected@.len() <= t);
                if fits {
                    let c = collected@.len();
                    assert(materialized + c <= (na - a) * ((n + 1) * t) + (n + 1 - q) * t) by (nonlinear_arith)
                        requires
                            materialized <= (na - a) * ((n + 1) * t) + (n - q) * t,
                            c <= t,
                    ;
                    assert((na - a) * ((n + 1) * t) + (n + 1 - q) * t <= (n + 1) * (na + 1) * t) by (nonlinear_arith)
                        requires
                            0 <= a <= na,
                            0 <= q <= n,
                            t >= 1,
                    ;
                }
            }
            if collected.len() > budget.max_partial_alignments - materialized || collected.len()
                > budget.max_alignments {
                return Outcome::Unknown;
            }
            materialized = materialized + collected.len();
            let ghost before = column@;
            column.set(q, collected);
            proof {
                assert forall|x: int| q <= x <= n implies #[trigger] state_ok(
                    parts,
                    symbols@,
                    atoms@,
                    anchored,
                    column@[x]@,
                    x,
                    a as int,
                ) by {
                    if x > q {
                        assert(column@[x] == before[x]);
                    }
                }
            }
        }
        let ghost before = suffixes@;
        suffixes.set(a, column);
        proof {
            assert((na - a) * ((n + 1) * t) + (n + 1 - q) * t == (na + 1 - a) * ((n + 1) * t)) by (nonlinear_arith)
                requires
                    q == 0,
            ;
            assert forall|x: int| a <= x <= atoms@.len() implies (#[trigger] suffixes@[x])@.len() == symbols@.len()
                + 1 by {
                if x > a {
                    assert(suffixes@[x] == before[x]);
                }
            }
            assert forall|x: int, y: int| a <= x <= atoms@.len() && 0 <= y <= symbols@.len() implies #[trigger] state_ok(
                parts,
                symbols@,
                atoms@,
                anchored,
                suffixes@[x]@[y]@,
                y,
                x,
            ) by {
                if x > a {
                    assert(suffixes@[x] == before[x]);
                } else {
                    assert(suffixes@[x] == column);
                }
            }
        }
    }
    proof {
        assert(state_ok(parts, symbols@, atoms@, anchored, suffixes@[0]@[0]@, 0, 0));
        assert(symbols@.subrange(0, n as int) =~= symbols@);
    }
    let mut start_column: Vec<Vec<Vec<Fragment>>> = suffixes.swap_remove(0);
    let mut list: Vec<Vec<Fragment>> = start_column.swap_remove(0);
    let ghost all = list@;
    if list.len() == 0 {
        return Outcome::Rejected;
    }
    proof {
        assert(list_bound(parts, symbols@, atoms@, 0, 0) == t);
    }
    if list.len() > budget.max_alignments {
        return Outcome::Unknown;
    }
    let total: usize = list.len();
    let mut out: Vec<Alignment> = Vec::new();
    let mut i: usize = 0;
    while list.len() > 0
        invariant
            i + list@.len() == total,
            total == all.len(),
            list@ == all.subrange(i as int, total as int),
            out@.len() == i,
            forall|k: int| 0 <= k < i ==> (#[trigger] out@[k]).fragments == all[k],
        decreases list.len(),
    {
        let fragments: Vec<Fragment> = list.remove(0);
        out.push(Alignment { fragments });
        proof {
            assert(list@ =~= all.subrange(i + 1, total as int));
        }
        i = i + 1;
    }
    proof {
        assert forall|x: int, y: int| 0 <= x < y < out@.len() implies !same_fragments(
            #[trigger] out@[x].fragments@,
            #[trigger] out@[y].fragments@,
        ) by {
            assert(out@[x].fragments == all[x]);
            assert(out@[y].fragments == all[y]);
        }
        assert forall|x: int| 0 <= x < out@.len() implies good(parts, literals(symbols@), #[trigger] out@[x].fragments@) by {
            assert(out@[x].fragments == all[x]);
        }
        assert forall|ks: Seq<(Option<(RuleIdx, u16)>, Seq<SymbolicChar>)>|
            #[trigger] derives(parts, symbols@, atoms@, anchored, 0, 0, ks) implies exists|i: int|
                0 <= i < out@.len() && #[trigger] keys_of(out@[i].fragments@) == ks by {
            assert(listed(all, ks));
            let i = choose|i: int| 0 <= i < all.len() && keys_of(#[trigger] all[i]@) == ks;
            assert(out@[i].fragments == all[i]);
            assert(keys_of(out@[i].fragments@) == ks);
        }
        assert(forall|ks: Seq<(Option<(RuleIdx, u16)>, Seq<SymbolicChar>)>|
            #[trigger] derives(model.parts@, symbols@, atoms@, anchored, 0, 0, ks) ==> exists|i: int|
                0 <= i < out@.len() && #[trigger] keys_of(out@[i].fragments@) == ks);
        assert forall|x: int| 0 <= x < out@.len() implies derives(parts, symbols@, atoms@, anchored, 0, 0, keys_of(#[trigger] out@[x].fragments@)) by {
            assert(out@[x].fragments == all[x]);
        }
    }
    let r = Outcome::Approximate(out);
    proof {
        assert(r matches Outcome::Approximate(v) && v == out);
    }
    r
}

/// Aligns `symbols` against `model`, decomposing the query's fixed text into
/// the shape's static text and captures of its placeholders. An empty query
/// is `Unknown`; a query no message of the shape can match is `Rejected`;
/// otherwise the decompositions are listed, or `Unknown` if `budget` runs
/// out, which an [`ample`] budget cannot. `symbols` and `anchored_at_end` are
/// as for [`can_match`].
pub fn align(model: &ShapeModel, symbols: &[SymbolicChar], anchored_at_end: bool, budget: Budget) -> (r: Outcome)
    requires
        symbols@.len() < usize::MAX,
        atoms_of(model.parts@).len() < usize::MAX,
    ensures
        symbols@.len() == 0 ==> r is Unknown,
        symbols@.len() > 0 && !reach(model.parts@, collapsed(symbols@), atoms_of(model.parts@), anchored_at_end, 0, 0)
            ==> r is Rejected,
        r is Rejected ==> symbols@.len() > 0 && !(has_alternatives(model.parts@) && reach(
            model.parts@,
            collapsed(symbols@),
            atoms_of(model.parts@),
            anchored_at_end,
            0,
            0,
        )),
        r matches Outcome::Approximate(v) ==> {
            &&& v@.len() > 0
            &&& v@.len() <= budget.max_alignments
            &&& distinct_alignments(v@)
            &&& forall|i: int| 0 <= i < v@.len() ==> good(model.parts@, literals(symbols@), #[trigger] v@[i].fragments@)
        },
        symbols@.len() > 0 && has_alternatives(model.parts@) && reach(
            model.parts@,
            collapsed(symbols@),
            atoms_of(model.parts@),
            anchored_at_end,
            0,
            0,
        ) && ample(budget, model.parts@, collapsed(symbols@).len(), atoms_of(model.parts@).len()) ==> r is Approximate,
        r matches Outcome::Approximate(v) ==> forall|ks: Seq<(Option<(RuleIdx, u16)>, Seq<SymbolicChar>)>|
            #[trigger] derives(model.parts@, collapsed(symbols@), atoms_of(model.parts@), anchored_at_end, 0, 0, ks)
                ==> exists|i: int| 0 <= i < v@.len() && #[trigger] keys_of(v@[i].fragments@) == ks,
        r matches Outcome::Approximate(v) ==> forall|i: int|
            0 <= i < v@.len() ==> derives(model.parts@, collapsed(symbols@), atoms_of(model.parts@), anchored_at_end, 0, 0, keys_of(#[trigger] v@[i].fragments@)),
{
    if symbols.len() == 0 {
        return Outcome::Unknown;
    }
    proof {
        lemma_collapsed_len(symbols@);
        lemma_collapsed_literals(symbols@);
    }
    let symbols: Vec<SymbolicChar> = collapse_wildcards(symbols);
    let atoms: Vec<Atom> = model.atoms();
    proof {
        assert(model.parts@.len() == model.parts.len());
        lemma_atoms_of_rules(model.parts@);
    }
    let table: Vec<Vec<bool>> = reachability(model, &symbols, &atoms, anchored_at_end);
    proof {
        assert(table@[0]@[0] == reach(model.parts@, symbols@, atoms@, anchored_at_end, 0, 0));
    }
    if !table[0][0] {
        return Outcome::Rejected;
    }
    enumerate(model, &symbols, &atoms, anchored_at_end, &table, budget)
}


/// The atoms of the first `k` parts are followed by those of part `k`.
proof fn lemma_atoms_prefix_step(parts: Seq<ShapePart>, k: int)
    requires
        0 <= k < parts.len(),
    ensures
        atoms_of(parts.subrange(0, k + 1)) == atoms_of(parts.subrange(0, k)) + part_atoms(parts[k], k),
{
    let s = parts.subrange(0, k + 1);
    assert(s.drop_last() =~= parts.subrange(0, k));
    assert(s.last() == parts[k]);
}

/// The atoms of the first `k` parts begin the atoms of the first `m`.
proof fn lemma_atoms_prefix(parts: Seq<ShapePart>, k: int, m: int)
    requires
        0 <= k <= m <= parts.len(),
    ensures
        atoms_of(parts.subrange(0, k)).len() <= atoms_of(parts.subrange(0, m)).len(),
        forall|x: int|
            0 <= x < atoms_of(parts.subrange(0, k)).len() ==> #[trigger] atoms_of(parts.subrange(0, m))[x]
                == atoms_of(parts.subrange(0, k))[x],
    decreases m - k,
{
    if k < m {
        lemma_atoms_prefix(parts, k, m - 1);
        lemma_atoms_prefix_step(parts, m - 1);
    }
}

/// After a placeholder whose following parts can all be empty, only
/// placeholder atoms remain.
proof fn lemma_can_stop_after(parts: Seq<ShapePart>, i: int, m: int)
    requires
        0 <= i < m <= parts.len(),
        forall|k: int| i < k < parts.len() ==> part_can_be_empty(#[trigger] parts[k]),
    ensures
        forall|x: int|
            atoms_of(parts.subrange(0, i + 1)).len() <= x < atoms_of(parts.subrange(0, m)).len() ==> (
            #[trigger] atoms_of(parts.subrange(0, m))[x]) is Rule,
    decreases m - i,
{
    if m > i + 1 {
        lemma_can_stop_after(parts, i, m - 1);
        lemma_atoms_prefix_step(parts, m - 1);
        let prev = atoms_of(parts.subrange(0, m - 1));
        let here = part_atoms(parts[m - 1], m - 1);
        assert(part_can_be_empty(parts[m - 1]));
        match parts[m - 1] {
            ShapePart::Static(text) => {
                assert(text@ =~= Seq::<char>::empty());
                assert(here =~= Seq::<Atom>::empty());
            },
            ShapePart::Placeholder(_) => {},
        }
        assert forall|x: int|
            atoms_of(parts.subrange(0, i + 1)).len() <= x < atoms_of(parts.subrange(0, m)).len() implies (
            #[trigger] atoms_of(parts.subrange(0, m))[x]) is Rule by {
            if x < prev.len() {
                assert(atoms_of(parts.subrange(0, m))[x] == prev[x]);
            } else {
                assert(atoms_of(parts.subrange(0, m))[x] == here[x - prev.len()]);
            }
        }
    }
}

/// A placeholder admitting every symbol captures all of them.
proof fn lemma_max_capture_all(parts: Seq<ShapePart>, p: int, symbols: Seq<SymbolicChar>, q: int)
    requires
        0 <= q <= symbols.len(),
        forall|k: int| 0 <= k < symbols.len() ==> admits(parts, p, #[trigger] symbols[k]),
    ensures
        max_capture(parts, p, symbols, q) == symbols.len() - q,
    decreases symbols.len() - q,
{
    if q < symbols.len() {
        lemma_max_capture_all(parts, p, symbols, q + 1);
    }
}

/// From a floating start the shape can produce atoms up to `target` without
/// consuming any query symbol.
proof fn lemma_float_to(
    parts: Seq<ShapePart>,
    symbols: Seq<SymbolicChar>,
    atoms: Seq<Atom>,
    anchored: bool,
    a: int,
    target: int,
)
    requires
        symbols.len() > 0,
        symbols[0] == SymbolicChar::GlobStar,
        0 <= a <= target <= atoms.len(),
        reach(parts, symbols, atoms, anchored, 0, target),
    ensures
        reach(parts, symbols, atoms, anchored, 0, a),
    decreases target - a,
{
    if a < target {
        lemma_float_to(parts, symbols, atoms, anchored, a + 1, target);
        assert(!accepting(symbols, atoms, anchored, 0, a));
        match atoms[a] {
            Atom::Text(_) => {},
            Atom::Rule(p) => {
                lemma_reach_any(parts, symbols, atoms, anchored, 0, a, 0 + max_capture(parts, p as int, symbols, 0));
                assert(0 <= max_capture(parts, p as int, symbols, 0)) by {
                    if max_capture(parts, p as int, symbols, 0) < 0 {
                        lemma_max_capture_nonneg(parts, p as int, symbols, 0);
                    }
                }
            },
        }
    }
}

proof fn lemma_max_capture_nonneg(parts: Seq<ShapePart>, p: int, symbols: Seq<SymbolicChar>, q: int)
    ensures
        max_capture(parts, p, symbols, q) >= 0,
    decreases symbols.len() - q,
{
    if !(q < 0 || q >= symbols.len() || !admits(parts, p, symbols[q])) {
        lemma_max_capture_nonneg(parts, p, symbols, q + 1);
    }
}

/// The shortcut of [`can_match`] is sound: when it holds, the full walk
/// accepts too.
pub proof fn lemma_shortcut_sound(parts: Seq<ShapePart>, symbols: Seq<SymbolicChar>, anchored: bool)
    requires
        parts.len() <= usize::MAX,
        obviously_not_ruled_out(parts, symbols, anchored),
    ensures
        reach(parts, symbols, atoms_of(parts), anchored, 0, 0),
{
    let atoms = atoms_of(parts);
    let i = choose|i: int| 0 <= i < parts.len() && #[trigger] placeholder_admits_all(parts, i, symbols, anchored);
    assert(parts.subrange(0, parts.len() as int) =~= parts);
    lemma_atoms_prefix_step(parts, i);
    lemma_atoms_prefix(parts, i + 1, parts.len() as int);
    let ai = atoms_of(parts.subrange(0, i)).len() as int;
    assert(atoms[ai] == atoms_of(parts.subrange(0, i + 1))[ai]);
    assert(part_atoms(parts[i], i) == seq![Atom::Rule(i as usize)]);
    assert(atoms[ai] == Atom::Rule(i as usize));
    assert forall|k: int| 0 <= k < symbols.len() implies admits(parts, i, #[trigger] symbols[k]) by {
        if let SymbolicChar::Literal(c) = symbols[k] {
            if forall|c: int| 0 <= c <= max_char() ==> parts[i]->Placeholder_0.charset.has(c) {
                assert(0 <= c as int <= max_char());
            }
        }
    }
    lemma_max_capture_all(parts, i, symbols, 0);
    let n = symbols.len() as int;
    if anchored {
        lemma_can_stop_after(parts, i, parts.len() as int);
    }
    assert(accepting(symbols, atoms, anchored, n, ai + 1));
    assert(reach(parts, symbols, atoms, anchored, n, ai + 1));
    lemma_reach_any(parts, symbols, atoms, anchored, 0, ai, n);
    assert(!accepting(symbols, atoms, anchored, 0, ai));
    assert(reach(parts, symbols, atoms, anchored, 0, ai));
    lemma_float_to(parts, symbols, atoms, anchored, 0, ai);
}

/// `can_match` answers "no" exactly when `align` rejects, for shapes whose
/// placeholders all resolve: the cheap pass and the full walk agree.
pub proof fn lemma_can_match_agrees_with_align(parts: Seq<ShapePart>, symbols: Seq<SymbolicChar>, anchored: bool)
    requires
        parts.len() <= usize::MAX,
    ensures
        (symbols.len() == 0 || obviously_not_ruled_out(parts, collapsed(symbols), anchored) || reach(
            parts,
            collapsed(symbols),
            atoms_of(parts),
            anchored,
            0,
            0,
        )) == (symbols.len() == 0 || reach(parts, collapsed(symbols), atoms_of(parts), anchored, 0, 0)),
{
    if obviously_not_ruled_out(parts, collapsed(symbols), anchored) {
        lemma_shortcut_sound(parts, collapsed(symbols), anchored);
    }
}

/// Collapsing never lengthens.
proof fn lemma_collapsed_len(s: Seq<SymbolicChar>)
    ensures
        collapsed(s).len() <= s.len(),
    decreases s.len(),
{
    if s.len() > 0 {
        lemma_collapsed_len(s.drop_last());
    }
}

} // verus!
