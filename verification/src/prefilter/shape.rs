//! A coarse model of a log shape: static text and placeholders, each
//! placeholder with a [`Charset`] bounding the characters its rule can emit.

use vstd::prelude::*;

use crate::parsing_spec::LogShapeFragment;
use crate::parsing_spec::ParsingSpec;
use crate::parsing_spec::RuleIdx;
use crate::parsing_spec::RuleInfo;
use crate::parsing_spec::SubRule;
use crate::parsing_spec::fragment_view;
use crate::parsing_spec::lemma_rows_root_idx;
use crate::parsing_spec::rows_for_name;
use crate::parsing_spec::shape_fragments;
use crate::parsing_spec::split_dots;
use crate::prefilter::Charset;
use crate::prefilter::alphabet;
use crate::regex::Regex;

verus! {

/// One token of a log shape.
#[derive(Debug)]
pub enum ShapePart {
    /// Fixed text, which a match reproduces verbatim.
    Static(String),
    /// A reference to a rule, standing for any string that rule can match.
    Placeholder(Placeholder),
}

/// A rule reference in a log shape.
#[derive(Debug)]
pub struct Placeholder {
    /// The name as written in the shape, e.g. `kv.key`.
    pub name: String,
    /// A superset of the characters any match of the placeholder can contain.
    pub charset: Charset,
    /// The (sub-)rules the name resolves to, each as the sub-rule a capture
    /// is reported under.
    pub alternatives: Vec<SubRule>,
    /// Whether every alternative has no nested captures.
    pub is_leaf: bool,
    /// Whether some alternative matches the empty string.
    pub can_match_empty: bool,
}

/// A log shape, as a sequence of parts.
#[derive(Debug)]
pub struct ShapeModel {
    pub parts: Vec<ShapePart>,
}

/// How a shape should be searched.
#[derive(Debug)]
pub enum Dispatch {
    /// No message of this shape can match the query.
    Rejected,
    /// The shape can be decomposed directly against the query's fixed text.
    Decompose(ShapeModel),
    /// The shape's automaton must be intersected with the query.
    Engine,
}

/// Whether the part can emit nothing.
pub open spec fn part_can_be_empty(part: ShapePart) -> bool {
    match part {
        ShapePart::Placeholder(p) => p.can_match_empty,
        ShapePart::Static(t) => t@.len() == 0,
    }
}

/// Whether the part is a placeholder that is a leaf.
pub open spec fn part_is_leaf_placeholder(part: ShapePart) -> bool {
    match part {
        ShapePart::Placeholder(p) => p.is_leaf,
        ShapePart::Static(_) => true,
    }
}

/// The number of placeholders among `parts`.
pub open spec fn count_placeholders(parts: Seq<ShapePart>) -> nat
    decreases parts.len(),
{
    if parts.len() == 0 {
        0
    } else {
        count_placeholders(parts.drop_last()) + if parts.last() is Placeholder {
            1nat
        } else {
            0nat
        }
    }
}

/// Whether a row of a lookup by name describes a rule or capture with no
/// nested capture.
pub open spec fn row_is_leaf(spec: ParsingSpec, row: (RuleInfo, Regex)) -> bool {
    match row.0.maybe_sub_rule {
        Some(s) => s.descendents == 0,
        None => spec.rules@[row.0.root_idx.0 - 1].rule_info@.len() <= 1,
    }
}

/// `alt` is the sub-rule a capture of `row` is reported under: the row's own
/// sub-rule, or, for a root rule, an implicit capture of the whole rule
/// under the rule's name.
pub open spec fn is_alternative(alt: SubRule, row: (RuleInfo, Regex)) -> bool {
    match row.0.maybe_sub_rule {
        Some(s) => alt.same_as(s),
        None => {
            &&& alt.name@ == row.0.root_name@
            &&& alt.regex.equiv(row.1)
            &&& alt.regex.wf() == row.1.wf()
            &&& alt.regex.nullable() == row.1.nullable()
            &&& alt.root_rule_idx == row.0.root_idx
            &&& alt.id == u16::MAX
            &&& alt.parent_id is None
            &&& alt.descendents == 0
            &&& alt.qualified_name@ == row.0.root_name@
            &&& alt.fully_qualified_name@ == row.0.root_name@
        },
    }
}

/// `p` is the placeholder for `name` in `spec`.
pub open spec fn describes(p: Placeholder, spec: ParsingSpec, name: Seq<char>) -> bool {
    let rows = rows_for_name(spec.rules@, split_dots(name));
    &&& rows.len() > 0
    &&& p.name@ == name
    &&& forall|c: int|
        #![trigger p.charset.has(c)]
        p.charset.has(c) <==> exists|k: int| 0 <= k < rows.len() && alphabet(#[trigger] rows[k].1, c)
    &&& p.alternatives@.len() == rows.len()
    &&& forall|k: int| 0 <= k < rows.len() ==> is_alternative(#[trigger] p.alternatives@[k], rows[k])
    &&& p.is_leaf == forall|k: int| 0 <= k < rows.len() ==> row_is_leaf(spec, #[trigger] rows[k])
    &&& p.can_match_empty == exists|k: int| 0 <= k < rows.len() && (#[trigger] rows[k]).1.nullable()
}

/// Whether the name of a rule fragment resolves to nothing.
pub open spec fn unresolved(spec: ParsingSpec, name: Seq<char>) -> bool {
    rows_for_name(spec.rules@, split_dots(name)).len() == 0
}

/// `parts` models the fragments `frags` of a log shape in `spec`.
pub open spec fn models(parts: Seq<ShapePart>, frags: Seq<(bool, Seq<char>)>, spec: ParsingSpec) -> bool {
    &&& parts.len() == frags.len()
    &&& forall|k: int|
        0 <= k < parts.len() ==> match #[trigger] parts[k] {
            ShapePart::Static(t) => !frags[k].0 && t@ == frags[k].1,
            ShapePart::Placeholder(p) => frags[k].0 && describes(p, spec, frags[k].1),
        }
}

impl ShapePart {
    /// Whether this part is a rule reference.
    pub fn is_placeholder(&self) -> (r: bool)
        ensures
            r == (*self is Placeholder),
    {
        match self {
            ShapePart::Placeholder(_) => true,
            ShapePart::Static(_) => false,
        }
    }

    /// Whether this part can emit nothing at all.
    pub fn can_be_empty(&self) -> (r: bool)
        ensures
            r == part_can_be_empty(*self),
    {
        match self {
            ShapePart::Placeholder(placeholder) => placeholder.can_match_empty,
            ShapePart::Static(text) => text.as_str().unicode_len() == 0,
        }
    }

    /// The rule name this part references, if it is a reference.
    pub fn placeholder_name(&self) -> (r: Option<&str>)
        ensures
            match *self {
                ShapePart::Placeholder(p) => r matches Some(n) && n@ == p.name@,
                ShapePart::Static(_) => r is None,
            },
    {
        match self {
            ShapePart::Placeholder(placeholder) => Some(placeholder.name.as_str()),
            ShapePart::Static(_) => None,
        }
    }
}

impl Placeholder {
    /// Resolves `name` against `spec`; `None` when it names no rule.
    pub fn new(spec: &ParsingSpec, name: String) -> (r: Option<Placeholder>)
        requires
            spec.wf(),
        ensures
            match r {
                Some(p) => describes(p, *spec, name@),
                None => unresolved(*spec, name@),
            },
    {
        let rows: Vec<(&RuleInfo, &Regex)> = spec.rules_for_name(name.as_str());
        let ghost expected = rows_for_name(spec.rules@, split_dots(name@));
        if rows.len() == 0 {
            return None;
        }
        proof {
            crate::prefilter::lemma_rows_wf(spec.rules@, split_dots(name@));
            lemma_rows_root_idx(spec.rules@, split_dots(name@));
        }
        let mut charset: Charset = Charset::empty();
        let mut alternatives: Vec<SubRule> = Vec::new();
        let mut is_leaf: bool = true;
        let mut can_match_empty: bool = false;
        let mut k: usize = 0;
        while k < rows.len()
            invariant
                0 <= k <= rows@.len(),
                spec.wf(),
                expected == rows_for_name(spec.rules@, split_dots(name@)),
                rows@.len() == expected.len(),
                forall|q: int|
                    0 <= q < rows@.len() ==> *(#[trigger] rows@[q]).0 == expected[q].0 && *rows@[q].1
                        == expected[q].1,
                forall|q: int| 0 <= q < expected.len() ==> (#[trigger] expected[q]).1.wf(),
                forall|q: int|
                    0 <= q < expected.len() ==> 1 <= (#[trigger] expected[q]).0.root_idx.0 <= spec.rules@.len(),
                forall|c: int|
                    #![trigger charset.has(c)]
                    charset.has(c) <==> exists|q: int| 0 <= q < k && alphabet(#[trigger] expected[q].1, c),
                alternatives@.len() == k,
                forall|q: int| 0 <= q < k ==> is_alternative(#[trigger] alternatives@[q], expected[q]),
                is_leaf == forall|q: int| 0 <= q < k ==> row_is_leaf(*spec, #[trigger] expected[q]),
                can_match_empty == exists|q: int| 0 <= q < k && (#[trigger] expected[q]).1.nullable(),
            decreases rows.len() - k,
        {
            let info: &RuleInfo = rows[k].0;
            let regex: &Regex = rows[k].1;
            proof {
                assert(expected[k as int].1.wf());
            }
            charset.add_regex(regex);
            let nullable: bool = regex.is_nullable();
            let alternative: SubRule;
            let leaf: bool;
            match &info.maybe_sub_rule {
                Some(sub_rule) => {
                    leaf = sub_rule.is_leaf();
                    alternative = sub_rule.deep_copy();
                },
                None => {
                    let root_idx: RuleIdx = info.root_idx;
                    leaf = !spec.rule(root_idx).has_captures();
                    alternative = SubRule {
                        name: info.root_name.clone(),
                        regex: regex.deep_copy(),
                        root_rule_idx: root_idx,
                        id: u16::MAX,
                        parent_id: None,
                        descendents: 0,
                        qualified_name: info.root_name.clone(),
                        fully_qualified_name: info.root_name.clone(),
                    };
                },
            }
            alternatives.push(alternative);
            proof {
                assert forall|c: int|
                    #![trigger charset.has(c)]
                    charset.has(c) <==> exists|q: int| 0 <= q < k + 1 && alphabet(#[trigger] expected[q].1, c) by {
                    if alphabet(expected[k as int].1, c) {
                        assert(0 <= k < k + 1);
                    }
                }
                assert forall|q: int| 0 <= q < k + 1 implies is_alternative(
                    #[trigger] alternatives@[q],
                    expected[q],
                ) by {}
                if nullable {
                    assert(expected[k as int].1.nullable());
                }
                if !(is_leaf && leaf) {
                    if !leaf {
                        assert(!row_is_leaf(*spec, expected[k as int]));
                    }
                }
            }
            is_leaf = is_leaf && leaf;
            can_match_empty = can_match_empty || nullable;
            k = k + 1;
        }
        Some(Placeholder { name, charset, alternatives, is_leaf, can_match_empty })
    }
}

impl ShapeModel {
    /// The model of `shape`: one part per fragment of
    /// [`ParsingSpec::split_log_shape`]. `None` when a placeholder names no
    /// rule.
    pub fn new(spec: &ParsingSpec, shape: &str) -> (r: Option<ShapeModel>)
        requires
            spec.wf(),
        ensures
            match r {
                Some(m) => models(m.parts@, shape_fragments(shape@), *spec),
                None => exists|k: int|
                    0 <= k < shape_fragments(shape@).len() && (#[trigger] shape_fragments(shape@)[k]).0
                        && unresolved(*spec, shape_fragments(shape@)[k].1),
            },
    {
        let mut fragments: Vec<LogShapeFragment> = spec.split_log_shape(shape);
        let ghost frags = shape_fragments(shape@);
        let ghost n = fragments@.len();
        proof {
            assert forall|k: int| 0 <= k < fragments@.len() implies fragment_view(#[trigger] fragments@[k]) == frags[k] by {
                assert(fragments@.map_values(|f: LogShapeFragment| fragment_view(f))[k] == fragment_view(
                    fragments@[k],
                ));
            }
        }
        let ghost all_fragments = fragments@;
        let total: usize = fragments.len();
        let mut parts: Vec<ShapePart> = Vec::new();
        let mut k: usize = 0;
        while fragments.len() > 0
            invariant
                spec.wf(),
                n == all_fragments.len(),
                n == frags.len(),
                n == total,
                frags == shape_fragments(shape@),
                0 <= k <= n,
                fragments@ == all_fragments.subrange(k as int, n as int),
                forall|j: int| 0 <= j < n ==> fragment_view(#[trigger] all_fragments[j]) == frags[j],
                models(parts@, frags.subrange(0, k as int), *spec),
            decreases fragments.len(),
        {
            let fragment: LogShapeFragment = fragments.remove(0);
            proof {
                assert(fragment == all_fragments[k as int]);
                assert(fragment_view(fragment) == frags[k as int]);
            }
            match fragment {
                LogShapeFragment::Text(text) => {
                    parts.push(ShapePart::Static(text));
                },
                LogShapeFragment::Rule(name) => {
                    match Placeholder::new(spec, name) {
                        Some(placeholder) => {
                            parts.push(ShapePart::Placeholder(placeholder));
                        },
                        None => {
                            return None;
                        },
                    }
                },
            }
            proof {
                let prev = frags.subrange(0, k as int);
                let next = frags.subrange(0, k + 1);
                assert forall|j: int| 0 <= j < parts@.len() implies match #[trigger] parts@[j] {
                    ShapePart::Static(t) => !next[j].0 && t@ == next[j].1,
                    ShapePart::Placeholder(p) => next[j].0 && describes(p, *spec, next[j].1),
                } by {
                    if j < k {
                        assert(next[j] == prev[j]);
                    }
                }
                assert(fragments@ =~= all_fragments.subrange(k + 1, n as int));
            }
            k = k + 1;
        }
        proof {
            assert(frags.subrange(0, n as int) =~= frags);
        }
        Some(ShapeModel { parts })
    }
}

impl ShapeModel {
    /// The fragments of parts `start..=end`, for rebuilding a slice of the
    /// shape.
    pub fn fragments_in(&self, start: usize, end: usize) -> (r: Vec<LogShapeFragment>)
        requires
            start <= end < self.parts@.len(),
        ensures
            r@.len() == end - start + 1,
            forall|k: int|
                0 <= k < r@.len() ==> fragment_view(#[trigger] r@[k]) == match self.parts@[start + k] {
                    ShapePart::Static(t) => (false, t@),
                    ShapePart::Placeholder(p) => (true, p.name@),
                },
    {
        let mut out: Vec<LogShapeFragment> = Vec::new();
        let n: usize = self.parts.len();
        let mut i: usize = start;
        while i <= end
            invariant
                start <= i <= end + 1,
                end < n,
                n == self.parts@.len(),
                out@.len() == i - start,
                forall|k: int|
                    0 <= k < out@.len() ==> fragment_view(#[trigger] out@[k]) == match self.parts@[start + k] {
                        ShapePart::Static(t) => (false, t@),
                        ShapePart::Placeholder(p) => (true, p.name@),
                    },
            decreases end + 1 - i,
        {
            let fragment: LogShapeFragment = match &self.parts[i] {
                ShapePart::Static(text) => LogShapeFragment::Text(text.clone()),
                ShapePart::Placeholder(placeholder) => LogShapeFragment::Rule(placeholder.name.clone()),
            };
            out.push(fragment);
            i = i + 1;
        }
        out
    }

    /// Whether a message of this shape can begin with what part `part`
    /// emits: every earlier part can emit nothing.
    pub fn can_start_at(&self, part: usize) -> (r: bool)
        requires
            part <= self.parts@.len(),
        ensures
            r == forall|k: int| 0 <= k < part ==> part_can_be_empty(#[trigger] self.parts@[k]),
    {
        let mut i: usize = 0;
        while i < part
            invariant
                0 <= i <= part <= self.parts@.len(),
                forall|k: int| 0 <= k < i ==> part_can_be_empty(#[trigger] self.parts@[k]),
            decreases part - i,
        {
            if !self.parts[i].can_be_empty() {
                return false;
            }
            i = i + 1;
        }
        true
    }

    /// Whether a message of this shape can end with what part `part` emits:
    /// every later part can emit nothing.
    pub fn can_end_at(&self, part: usize) -> (r: bool)
        requires
            part < self.parts@.len(),
        ensures
            r == forall|k: int| part < k < self.parts@.len() ==> part_can_be_empty(#[trigger] self.parts@[k]),
    {
        let n: usize = self.parts.len();
        let mut i: usize = part + 1;
        while i < self.parts.len()
            invariant
                part + 1 <= i <= self.parts@.len(),
                forall|k: int| part < k < i ==> part_can_be_empty(#[trigger] self.parts@[k]),
            decreases self.parts.len() - i,
        {
            if !self.parts[i].can_be_empty() {
                return false;
            }
            i = i + 1;
        }
        true
    }

    /// The placeholders of this shape, in order.
    pub fn placeholders(&self) -> (r: Vec<&Placeholder>)
        ensures
            r@.len() == count_placeholders(self.parts@),
    {
        let mut out: Vec<&Placeholder> = Vec::new();
        let mut i: usize = 0;
        while i < self.parts.len()
            invariant
                0 <= i <= self.parts@.len(),
                out@.len() == count_placeholders(self.parts@.subrange(0, i as int)),
            decreases self.parts.len() - i,
        {
            proof {
                let next = self.parts@.subrange(0, i + 1);
                assert(next.drop_last() =~= self.parts@.subrange(0, i as int));
            }
            match &self.parts[i] {
                ShapePart::Placeholder(placeholder) => out.push(placeholder),
                ShapePart::Static(_) => {},
            }
            i = i + 1;
        }
        proof {
            assert(self.parts@.subrange(0, self.parts@.len() as int) =~= self.parts@);
        }
        out
    }

    /// Whether every placeholder resolves only to leaf rules.
    pub fn all_placeholders_are_leaves(&self) -> (r: bool)
        ensures
            r == forall|k: int| 0 <= k < self.parts@.len() ==> part_is_leaf_placeholder(#[trigger] self.parts@[k]),
    {
        let mut i: usize = 0;
        while i < self.parts.len()
            invariant
                0 <= i <= self.parts@.len(),
                forall|k: int| 0 <= k < i ==> part_is_leaf_placeholder(#[trigger] self.parts@[k]),
            decreases self.parts.len() - i,
        {
            match &self.parts[i] {
                ShapePart::Placeholder(placeholder) => {
                    if !placeholder.is_leaf {
                        return false;
                    }
                },
                ShapePart::Static(_) => {},
            }
            i = i + 1;
        }
        true
    }

    /// The number of placeholders.
    pub fn num_placeholders(&self) -> (r: usize)
        ensures
            r == count_placeholders(self.parts@),
    {
        let mut count: usize = 0;
        let mut i: usize = 0;
        while i < self.parts.len()
            invariant
                0 <= i <= self.parts@.len(),
                count == count_placeholders(self.parts@.subrange(0, i as int)),
                count <= i,
            decreases self.parts.len() - i,
        {
            proof {
                let next = self.parts@.subrange(0, i + 1);
                assert(next.drop_last() =~= self.parts@.subrange(0, i as int));
            }
            if self.parts[i].is_placeholder() {
                count = count + 1;
            }
            i = i + 1;
        }
        proof {
            assert(self.parts@.subrange(0, self.parts@.len() as int) =~= self.parts@);
        }
        count
    }

    /// Whether the shape can be decomposed: it has a placeholder, and every
    /// placeholder is a leaf.
    pub fn can_decompose(&self) -> (r: bool)
        ensures
            r == (count_placeholders(self.parts@) > 0 && forall|k: int|
                0 <= k < self.parts@.len() ==> part_is_leaf_placeholder(#[trigger] self.parts@[k])),
    {
        self.num_placeholders() > 0 && self.all_placeholders_are_leaves()
    }
}

} // verus!
