//! Parsing specifications: named rules (regular expressions with captures),
//! delimiters, placeholders and encodings.

mod rule;
mod shape_text;
pub mod equality;
pub mod spec_file;

pub use rule::RootRule;
pub use rule::RuleIdx;
pub use rule::RuleInfo;
pub use rule::SubRule;
pub use rule::is_root_info;
pub use rule::is_sub_rule_info;
pub use rule::labelled;
pub use rule::name_matches;
pub use rule::name_matches_of_items;
pub use rule::lemma_name_matches_wf;
pub use rule::views_of;
pub use shape_text::LogShapeFragment;
pub use shape_text::ShapeScan;
pub use shape_text::fragment_view;
pub use shape_text::scan_shape;
pub use shape_text::shape_fragments;
pub use shape_text::split_dots;
pub use shape_text::split_on_dots;
pub use shape_text::split_shape;

use vstd::prelude::*;

use crate::nfa::Tnfa;
use crate::nfa::regex_construction::build_cost;
use crate::nfa::regex_construction::encodings_ok;
use crate::nfa::regex_construction::can_match;
use crate::nfa::regex_construction::reaches;
use crate::nfa::regex_construction::tag_bound;
use crate::regex::AnchoredRegex;
use crate::regex::Regex;
use crate::regex::RegexError;
use crate::regex::RegexPlaceholderLookup;
use crate::regex::RegexShape;
use crate::regex::no_placeholders;
use crate::regex::pattern_tree;
use crate::regex::lemma_equiv_shape;
use crate::regex::anchored_body;
use crate::regex::anchors_after;
use crate::regex::anchors_before;
use crate::regex::numbered;
use crate::regex::pattern_ok;
use crate::regex::rule_pattern_ok;
use crate::text::char_code;
use crate::text::chars_of;
use crate::text::push_char;
use crate::text::str_eq;
use crate::text::string_of;

verus! {

/// Index of an encoding in a parsing specification, starting at 1.
#[derive(Debug, Clone, Copy, PartialEq, Eq, Structural, PartialOrd, Ord, Hash)]
pub struct EncodingIdx(pub u16);

/// A named encoding of values (such as integers).
#[derive(Debug)]
pub struct Encoding {
    pub idx: EncodingIdx,
    pub name: String,
    pub regex: Regex,
    /// The automaton of `regex`, kept for intersecting with.
    pub nfa: Tnfa,
}

/// Collects rules, placeholders, encodings and delimiters, and builds a
/// [`ParsingSpec`].
#[derive(Debug)]
pub struct ParsingSpecBuilder {
    /// `(priority, name, pattern)`, by decreasing priority and, within a
    /// priority, in the order the rules were added.
    rules: Vec<(i32, String, AnchoredRegex)>,
    placeholders: Vec<(String, Regex)>,
    encodings: Vec<Encoding>,
    delimiters: String,
}

/// A list of rules and a set of delimiter characters.
///
/// Rules are ordered by decreasing priority and, within a priority, by
/// insertion order; the rule at position `k` has index `k + 1`.
#[derive(Debug)]
pub struct ParsingSpec {
    pub rules: Vec<RootRule>,
    pub placeholders: Vec<(String, Regex)>,
    pub delimiters: String,
    pub encodings: Vec<Encoding>,
    /// `ascii_delimiters[c]` for each ASCII code `c`: whether it is a delimiter.
    pub ascii_delimiters: Vec<bool>,
    /// The delimiters outside ASCII, in the order given.
    pub non_ascii_delimiters: String,
}

/// The word naming the delimiters line.
pub open spec fn delimiters_word() -> Seq<char> {
    seq!['d', 'e', 'l', 'i', 'm', 'i', 't', 'e', 'r', 's']
}

/// The rules a specification lists for the chosen encodings `sel`: for each
/// rule `k` in turn, a variant for each encoding position in `sel[k]`, then
/// the rule itself.
pub open spec fn layout(sel: Seq<Seq<int>>) -> Seq<(int, Option<int>)>
    decreases sel.len(),
{
    if sel.len() == 0 {
        Seq::empty()
    } else {
        let k = sel.len() - 1;
        layout(sel.drop_last()) + sel.last().map_values(|e: int| (k, Some(e))) + seq![(k, None::<int>)]
    }
}

/// Each rule of the layout comes from one of the chosen rules.
pub proof fn lemma_layout_range(sel: Seq<Seq<int>>)
    ensures
        forall|j: int| 0 <= j < layout(sel).len() ==> 0 <= (#[trigger] layout(sel)[j]).0 < sel.len(),
    decreases sel.len(),
{
    if sel.len() > 0 {
        let k = sel.len() - 1;
        lemma_layout_range(sel.drop_last());
        let prev = layout(sel.drop_last());
        let mid = sel.last().map_values(|e: int| (k, Some(e)));
        assert forall|j: int| 0 <= j < layout(sel).len() implies 0 <= (#[trigger] layout(sel)[j]).0 < sel.len() by {
            if j < prev.len() {
                assert(layout(sel)[j] == prev[j]);
            } else if j < prev.len() + mid.len() {
                assert(layout(sel)[j] == mid[j - prev.len()]);
            }
        }
    }
}

/// The encodings chosen for a rule are increasing positions of encodings,
/// and only a rule without captures has any.
pub open spec fn selection_entry_ok(chosen: Seq<int>, entry: (i32, String, AnchoredRegex), n: int) -> bool {
    &&& forall|a: int, b: int| 0 <= a < b < chosen.len() ==> chosen[a] < chosen[b]
    &&& forall|a: int| 0 <= a < chosen.len() ==> 0 <= #[trigger] chosen[a] < n
    &&& chosen.len() > 0 ==> entry.2.regex.captures().len() == 0
}

pub open spec fn selection_ok(sel: Seq<Seq<int>>, list: Seq<(i32, String, AnchoredRegex)>, n: int) -> bool {
    &&& sel.len() == list.len()
    &&& forall|k: int| 0 <= k < sel.len() ==> selection_entry_ok(#[trigger] sel[k], list[k], n)
}

/// `rule` is rule number `j + 1`, made of the builder rule `entry`, for the
/// encoding at position `enc` if any.
pub open spec fn rule_from(rule: RootRule, j: int, entry: (i32, String, AnchoredRegex), enc: Option<int>) -> bool {
    let (p, name, regex) = entry;
    &&& rule.idx.0 == j + 1
    &&& rule.priority == p
    &&& rule.name@ == name@
    &&& enc is None ==> rule.regex == regex
    &&& enc is Some ==> {
        &&& rule.regex.regex.equiv(regex.regex)
        &&& rule.regex.regex.wf() == regex.regex.wf()
        &&& rule.regex.anchor_before == regex.anchor_before
        &&& rule.regex.anchor_after == regex.anchor_after
        &&& rule.regex.total_captures == regex.total_captures
    }
    &&& rule.maybe_encoding == match enc {
        Some(e) => Some(EncodingIdx((e + 1) as u16)),
        None => None,
    }
    &&& rule.rule_info@.len() == regex.regex.captures().len() + 1
    &&& is_root_info(rule.rule_info@[0], rule.idx, name@)
    &&& forall|c: int|
        0 <= c < regex.regex.captures().len() ==> is_sub_rule_info(
            #[trigger] rule.rule_info@[c + 1],
            rule.idx,
            name@,
            regex.regex.captures()[c],
        )
}

/// The automata that building makes for the variants fit in memory: for a
/// rule without captures, its automaton times each encoding's.
pub open spec fn variants_fit(list: Seq<(i32, String, AnchoredRegex)>, encs: Seq<Encoding>) -> bool {
    forall|k: int, e: int|
        0 <= k < list.len() && 0 <= e < encs.len() && #[trigger] list[k].2.regex.captures().len() == 0 ==> (2
            + build_cost(list[k].2.regex, Seq::empty())) * (#[trigger] encs[e]).nfa.states@.len() <= usize::MAX
}

/// The delimiters a builder starts with.
pub open spec fn default_delimiters() -> Seq<char> {
    seq![' ', '\t', '\r', '\n', ':', ',', '!', ';', '%']
}

/// The position at which a rule of priority `p` goes into a list kept by
/// decreasing priority: after every rule of priority `p` or more.
pub open spec fn insertion_point(rules: Seq<(i32, String, AnchoredRegex)>, p: i32) -> int
    decreases rules.len(),
{
    if rules.len() == 0 {
        0
    } else if rules[0].0 >= p {
        1 + insertion_point(rules.drop_first(), p)
    } else {
        0
    }
}

/// `after` is `before` with the rule `(p, name, regex)` inserted at
/// [`insertion_point`].
pub open spec fn rule_inserted(
    before: Seq<(i32, String, AnchoredRegex)>,
    after: Seq<(i32, String, AnchoredRegex)>,
    p: i32,
    name: Seq<char>,
    regex: AnchoredRegex,
) -> bool {
    let at = insertion_point(before, p);
    &&& after.len() == before.len() + 1
    &&& after[at].0 == p
    &&& after[at].1@ == name
    &&& after[at].2 == regex
    &&& forall|k: int| 0 <= k < at ==> #[trigger] after[k] == before[k]
    &&& forall|k: int| at < k < after.len() ==> #[trigger] after[k] == before[k - 1]
}

/// The priorities never increase along the list.
pub open spec fn by_priority(rules: Seq<(i32, String, AnchoredRegex)>) -> bool {
    forall|i: int, j: int| 0 <= i < j < rules.len() ==> rules[i].0 >= rules[j].0
}

/// No two entries share a name.
pub open spec fn unique_names(placeholders: Seq<(String, Regex)>) -> bool {
    forall|i: int, j: int|
        0 <= i < j < placeholders.len() ==> (#[trigger] placeholders[i]).0@ != (#[trigger] placeholders[j]).0@
}

/// The form of the expression of the placeholder named `name`, if there is
/// one.
pub open spec fn placeholder_shape(placeholders: Seq<(String, Regex)>, name: Seq<char>) -> Option<RegexShape> {
    if has_name(placeholders, name) {
        Some(
            placeholders[choose|i: int|
                0 <= i < placeholders.len() && (#[trigger] placeholders[i]).0@ == name].1.shape(),
        )
    } else {
        None
    }
}

/// The forms of the placeholders' expressions, by name.
pub open spec fn placeholder_shapes(placeholders: Seq<(String, Regex)>) -> spec_fn(Seq<char>) -> Option<
    RegexShape,
> {
    |name: Seq<char>| placeholder_shape(placeholders, name)
}

/// Whether some entry is named `name`.
pub open spec fn has_name(placeholders: Seq<(String, Regex)>, name: Seq<char>) -> bool {
    exists|i: int| 0 <= i < placeholders.len() && (#[trigger] placeholders[i]).0@ == name
}

/// Whether some encoding is named `name`.
pub open spec fn has_encoding(encodings: Seq<Encoding>, name: Seq<char>) -> bool {
    exists|i: int| 0 <= i < encodings.len() && (#[trigger] encodings[i]).name@ == name
}

/// The delimiters after [`ParsingSpecBuilder::set_delimiters`]: a newline is
/// appended when missing.
pub open spec fn with_newline(delimiters: Seq<char>) -> Seq<char> {
    if delimiters.contains('\n') {
        delimiters
    } else {
        delimiters.push('\n')
    }
}

/// The characters of `s` that are not ASCII, in order.
pub open spec fn non_ascii(s: Seq<char>) -> Seq<char> {
    s.filter(|c: char| c as int >= 0x80)
}

/// Whether some character of `delimiters` has the code `code`.
pub open spec fn is_ascii_delimiter(delimiters: Seq<char>, code: int) -> bool {
    exists|i: int| 0 <= i < delimiters.len() && (#[trigger] delimiters[i]) as int == code
}

impl ParsingSpecBuilder {
    #[verifier::type_invariant]
    closed spec fn inv(self) -> bool {
        &&& by_priority(self.rules@)
        &&& forall|i: int|
            0 <= i < self.rules@.len() ==> {
                let re = (#[trigger] self.rules@[i]).2.regex;
                numbered(re.captures(), 1, re.captures().len() + 1int) && re.wf()
                    && self.rules@[i].2.total_captures == re.captures().len() + 1
            }
        &&& unique_names(self.placeholders@)
        &&& forall|i: int| 0 <= i < self.placeholders@.len() ==> (#[trigger] self.placeholders@[i]).1.wf()
        &&& forall|i: int|
            0 <= i < self.encodings@.len() ==> (#[trigger] self.encodings@[i]).idx.0 == i + 1
        &&& self.encodings@.len() <= 0xffff
    }

    /// The rules, by decreasing priority and then insertion order.
    pub closed spec fn rule_list(self) -> Seq<(i32, String, AnchoredRegex)> {
        self.rules@
    }

    /// The placeholders, in insertion order.
    pub closed spec fn placeholder_list(self) -> Seq<(String, Regex)> {
        self.placeholders@
    }

    /// The encodings, in insertion order.
    pub closed spec fn encoding_list(self) -> Seq<Encoding> {
        self.encodings@
    }

    /// The delimiter characters.
    pub closed spec fn delimiter_chars(self) -> Seq<char> {
        self.delimiters@
    }

    /// A builder with no rules, placeholders or encodings and the default
    /// delimiters `" \t\r\n:,!;%"`.
    pub fn new() -> (r: Self)
        ensures
            r.rule_list().len() == 0,
            r.placeholder_list().len() == 0,
            r.encoding_list().len() == 0,
            r.delimiter_chars() == default_delimiters(),
    {
        let delimiters: String = String::from_str(" \t\r\n:,!;%");
        proof {
            reveal_strlit(" \t\r\n:,!;%");
            assert(delimiters@ =~= default_delimiters());
        }
        ParsingSpecBuilder { rules: Vec::new(), placeholders: Vec::new(), encodings: Vec::new(), delimiters }
    }

    /// Replaces the delimiters; a newline is appended if missing.
    pub fn set_delimiters(&mut self, delimiters: &str)
        requires
            delimiters@.len() > 0,
        ensures
            final(self).delimiter_chars() == with_newline(delimiters@),
            final(self).rule_list() == old(self).rule_list(),
            final(self).placeholder_list() == old(self).placeholder_list(),
            final(self).encoding_list() == old(self).encoding_list(),
    {
        proof {
            use_type_invariant(&*self);
        }
        let mut owned: String = delimiters.to_owned();
        let chars: Vec<char> = chars_of(delimiters);
        let mut has_newline: bool = false;
        let mut i: usize = 0;
        while i < chars.len()
            invariant
                chars@ == delimiters@,
                0 <= i <= chars.len(),
                has_newline == chars@.subrange(0, i as int).contains('\n'),
            decreases chars.len() - i,
        {
            proof {
                let prefix = chars@.subrange(0, i as int);
                let next = chars@.subrange(0, i + 1);
                assert(next =~= prefix.push(chars@[i as int]));
                if has_newline {
                    let w = choose|w: int| 0 <= w < prefix.len() && prefix[w] == '\n';
                    assert(next[w] == '\n');
                }
                if chars@[i as int] == '\n' {
                    assert(next[i as int] == '\n');
                }
            }
            if chars[i] == '\n' {
                has_newline = true;
            }
            i = i + 1;
        }
        proof {
            assert(chars@.subrange(0, chars@.len() as int) =~= chars@);
        }
        if !has_newline {
            push_char(&mut owned, '\n');
        }
        self.delimiters = owned;
    }

    /// Adds a rule with priority 0; see [`Self::add_rule_with_priority`].
    pub fn add_rule(&mut self, name: &str, pattern: &str) -> (r: Result<(), RegexError>)
        requires
            name@.len() > 0,
            name@ != delimiters_word(),
        ensures
            match r {
                Ok(()) => exists|regex: AnchoredRegex|
                    rule_inserted(old(self).rule_list(), final(self).rule_list(), 0, name@, regex)
                        && regex.anchor_before == anchors_before(pattern@) && regex.anchor_after == anchors_after(
                        pattern@,
                    ) && pattern_tree(anchored_body(pattern@), no_placeholders()) == Some(regex.regex.shape()),
                Err(_) => final(self).rule_list() == old(self).rule_list(),
            },
            r is Ok ==> pattern_ok(anchored_body(pattern@)),
            pattern_ok(anchored_body(pattern@)) ==> r is Ok || r->Err_0.kind is TooManyCaptures,
            rule_pattern_ok(pattern@) ==> r is Ok,
            final(self).placeholder_list() == old(self).placeholder_list(),
            final(self).encoding_list() == old(self).encoding_list(),
            final(self).delimiter_chars() == old(self).delimiter_chars(),
    {
        self.add_rule_with_priority(0, name, pattern)
    }

    /// Parses `pattern` (without placeholders) and adds it as the rule `name`
    /// with the given priority; larger is preferred, and within a priority
    /// rules keep the order in which they were added.
    pub fn add_rule_with_priority(&mut self, priority: i32, name: &str, pattern: &str) -> (r: Result<
        (),
        RegexError,
    >)
        requires
            name@.len() > 0,
            name@ != delimiters_word(),
        ensures
            match r {
                Ok(()) => exists|regex: AnchoredRegex|
                    rule_inserted(old(self).rule_list(), final(self).rule_list(), priority, name@, regex)
                        && regex.anchor_before == anchors_before(pattern@) && regex.anchor_after == anchors_after(
                        pattern@,
                    ) && pattern_tree(anchored_body(pattern@), no_placeholders()) == Some(regex.regex.shape()),
                Err(_) => final(self).rule_list() == old(self).rule_list(),
            },
            r is Ok ==> pattern_ok(anchored_body(pattern@)),
            pattern_ok(anchored_body(pattern@)) ==> r is Ok || r->Err_0.kind is TooManyCaptures,
            rule_pattern_ok(pattern@) ==> r is Ok,
            final(self).placeholder_list() == old(self).placeholder_list(),
            final(self).encoding_list() == old(self).encoding_list(),
            final(self).delimiter_chars() == old(self).delimiter_chars(),
    {
        let regex: AnchoredRegex = match AnchoredRegex::from_pattern(pattern) {
            Ok(regex) => regex,
            Err(e) => return Err(e),
        };
        proof {
            assert(regex.total_captures - 1 == regex.regex.captures().len());
        }
        self.add_parsed_rule_with_priority(priority, name, regex);
        Ok(())
    }

    /// Adds the parsed rule `name` with the given priority.
    pub fn add_parsed_rule_with_priority(&mut self, priority: i32, name: &str, regex: AnchoredRegex)
        requires
            name@.len() > 0,
            name@ != delimiters_word(),
            numbered(regex.regex.captures(), 1, regex.regex.captures().len() + 1int),
            regex.regex.wf(),
            regex.total_captures == regex.regex.captures().len() + 1,
        ensures
            rule_inserted(old(self).rule_list(), final(self).rule_list(), priority, name@, regex),
            final(self).placeholder_list() == old(self).placeholder_list(),
            final(self).encoding_list() == old(self).encoding_list(),
            final(self).delimiter_chars() == old(self).delimiter_chars(),
    {
        proof {
            use_type_invariant(&*self);
        }
        let mut at: usize = 0;
        while at < self.rules.len() && self.rules[at].0 >= priority
            invariant
                0 <= at <= self.rules@.len(),
                by_priority(self.rules@),
                forall|k: int| 0 <= k < at ==> (#[trigger] self.rules@[k]).0 >= priority,
            decreases self.rules.len() - at,
        {
            at = at + 1;
        }
        proof {
            lemma_insertion_point(self.rules@, priority, at as int);
        }
        let mut rules: Vec<(i32, String, AnchoredRegex)> = Vec::new();
        std::mem::swap(&mut rules, &mut self.rules);
        rules.insert(at, (priority, name.to_owned(), regex));
        proof {
            let before = old(self).rules@;
            assert forall|i: int, j: int| 0 <= i < j < rules@.len() implies rules@[i].0 >= rules@[j].0 by {
                if j < at {
                } else if j == at {
                    assert(before[i].0 >= priority);
                } else if i < at {
                    assert(rules@[j] == before[j - 1]);
                } else if i == at {
                    assert(rules@[j] == before[j - 1]);
                    assert(at < before.len());
                    assert(before[at as int].0 < priority);
                } else {
                    assert(rules@[i] == before[i - 1]);
                    assert(rules@[j] == before[j - 1]);
                }
            }
        }
        self.rules = rules;
    }

    /// Adds the placeholder `name`. When the name is taken, its expression is
    /// replaced and the previous one is returned as the error.
    pub fn add_placeholder(&mut self, name: &str, regex: Regex) -> (r: Result<(), Regex>)
        requires
            name@.len() > 0,
            name@ != delimiters_word(),
            regex.wf(),
        ensures
            match r {
                Ok(()) => !has_name(old(self).placeholder_list(), name@) && final(self).placeholder_list().len()
                    == old(self).placeholder_list().len() + 1 && final(self).placeholder_list().drop_last()
                    == old(self).placeholder_list() && final(self).placeholder_list().last().0@ == name@
                    && final(self).placeholder_list().last().1 == regex,
                Err(previous) => exists|i: int|
                    0 <= i < old(self).placeholder_list().len() && (#[trigger] old(
                        self,
                    ).placeholder_list()[i]).0@ == name@ && previous == old(self).placeholder_list()[i].1
                        && final(self).placeholder_list() == old(self).placeholder_list().update(
                        i,
                        (old(self).placeholder_list()[i].0, regex),
                    ),
            },
            final(self).rule_list() == old(self).rule_list(),
            final(self).encoding_list() == old(self).encoding_list(),
            final(self).delimiter_chars() == old(self).delimiter_chars(),
    {
        proof {
            use_type_invariant(&*self);
        }
        let mut i: usize = 0;
        while i < self.placeholders.len()
            invariant
                0 <= i <= self.placeholders@.len(),
                *self == *old(self),
                self.inv(),
                regex.wf(),
                forall|k: int| 0 <= k < i ==> (#[trigger] self.placeholders@[k]).0@ != name@,
            decreases self.placeholders.len() - i,
        {
            if str_eq(self.placeholders[i].0.as_str(), name) {
                let mut placeholders: Vec<(String, Regex)> = Vec::new();
                std::mem::swap(&mut placeholders, &mut self.placeholders);
                let (existing_name, previous) = placeholders.remove(i);
                placeholders.insert(i, (existing_name, regex));
                proof {
                    let before = old(self).placeholders@;
                    assert(old(self).placeholder_list()[i as int].0@ == name@);
                    assert(previous == before[i as int].1);
                    assert(placeholders@ =~= before.update(i as int, (before[i as int].0, regex)));
                    assert forall|k: int| 0 <= k < placeholders@.len() implies (#[trigger] placeholders@[k]).1.wf() by {
                        if k != i {
                            assert(placeholders@[k] == before[k]);
                        }
                    }
                    assert forall|a: int, b: int| 0 <= a < b < placeholders@.len() implies (
                    #[trigger] placeholders@[a]).0@ != (#[trigger] placeholders@[b]).0@ by {
                        assert(placeholders@[a].0 == before[a].0);
                        assert(placeholders@[b].0 == before[b].0);
                    }
                }
                self.placeholders = placeholders;
                return Err(previous);
            }
            i = i + 1;
        }
        let ghost before = self.placeholders@;
        let mut placeholders: Vec<(String, Regex)> = Vec::new();
        std::mem::swap(&mut placeholders, &mut self.placeholders);
        placeholders.push((name.to_owned(), regex));
        proof {
            assert(placeholders@.drop_last() =~= before);
            assert forall|k: int| 0 <= k < placeholders@.len() implies (#[trigger] placeholders@[k]).1.wf() by {
                if k < before.len() {
                    assert(placeholders@[k] == before[k]);
                }
            }
            assert forall|a: int, b: int| 0 <= a < b < placeholders@.len() implies (
            #[trigger] placeholders@[a]).0@ != (#[trigger] placeholders@[b]).0@ by {
                if b == before.len() {
                    assert(placeholders@[a] == before[a]);
                }
            }
        }
        self.placeholders = placeholders;
        Ok(())
    }

    /// Adds the encoding `name`; fails with the existing index when the name
    /// is taken.
    pub fn add_encoding(&mut self, name: &str, regex: Regex) -> (r: Result<(), EncodingIdx>)
        requires
            name@.len() > 0,
            old(self).encoding_list().len() < 0xffff,
            regex.wf(),
            2 + build_cost(regex, Seq::empty()) <= usize::MAX,
        ensures
            match r {
                Ok(()) => !has_encoding(old(self).encoding_list(), name@) && final(self).encoding_list().len()
                    == old(self).encoding_list().len() + 1 && final(self).encoding_list().drop_last()
                    == old(self).encoding_list() && final(self).encoding_list().last().name@ == name@
                    && final(self).encoding_list().last().regex == regex
                    && final(self).encoding_list().last().nfa.wf()
                    && final(self).encoding_list().last().nfa.states@.len() <= 2 + build_cost(regex, Seq::empty())
                    && crate::nfa::accepting_nil(final(self).encoding_list().last().nfa.states@)
                    && (can_match(regex) ==> reaches(final(self).encoding_list().last().nfa.states@, 0, 1))
                    && (tag_bound(regex, 0) == 0 ==> forall|i: int|
                        0 <= i < final(self).encoding_list().last().nfa.states@.len() ==> !((#[trigger] final(self).encoding_list().last().nfa.states@[i]).transitions is Tagged))
                    && final(self).encoding_list().last().idx.0 == old(self).encoding_list().len() + 1,
                Err(idx) => exists|i: int|
                    0 <= i < old(self).encoding_list().len() && (#[trigger] old(
                        self,
                    ).encoding_list()[i]).name@ == name@ && idx.0 == i + 1 && final(self).encoding_list()
                        == old(self).encoding_list(),
            },
            final(self).rule_list() == old(self).rule_list(),
            final(self).placeholder_list() == old(self).placeholder_list(),
            final(self).delimiter_chars() == old(self).delimiter_chars(),
    {
        proof {
            use_type_invariant(&*self);
        }
        let mut i: usize = 0;
        while i < self.encodings.len()
            invariant
                0 <= i <= self.encodings@.len(),
                *self == *old(self),
                self.inv(),
                forall|k: int| 0 <= k < i ==> (#[trigger] self.encodings@[k]).name@ != name@,
            decreases self.encodings.len() - i,
        {
            if str_eq(self.encodings[i].name.as_str(), name) {
                return Err(self.encodings[i].idx);
            }
            i = i + 1;
        }
        let idx: EncodingIdx = EncodingIdx((self.encodings.len() + 1) as u16);
        let ghost before = self.encodings@;
        let mut encodings: Vec<Encoding> = Vec::new();
        std::mem::swap(&mut encodings, &mut self.encodings);
        let nfa: Tnfa = Tnfa::for_regex(&regex);
        encodings.push(Encoding { idx, name: name.to_owned(), regex, nfa });
        proof {
            assert(encodings@.drop_last() =~= before);
        }
        self.encodings = encodings;
        Ok(())
    }

    /// Builds the specification. Each rule of [`Self::rule_list`] becomes,
    /// in order, its variants for the encodings chosen for it (by increasing
    /// encoding index), then the rule itself; rules are numbered from 1 in
    /// that order. Only a rule without captures has variants: one for each
    /// encoding whose automaton shares an accepted word with the rule's.
    pub fn build(self) -> (r: ParsingSpec)
        requires
            self.rule_list().len() * (self.encoding_list().len() + 1) < 0xffff,
            encodings_ok(self.encoding_list()),
            variants_fit(self.rule_list(), self.encoding_list()),
        ensures
            r.wf(),
            exists|sel: Seq<Seq<int>>|
                #![trigger layout(sel)]
                selection_ok(sel, self.rule_list(), self.encoding_list().len() as int) && r.rules@.len() == layout(
                    sel,
                ).len() && forall|j: int|
                    0 <= j < r.rules@.len() ==> rule_from(
                        #[trigger] r.rules@[j],
                        j,
                        self.rule_list()[layout(sel)[j].0],
                        layout(sel)[j].1,
                    ),
            r.placeholders@ == self.placeholder_list(),
            r.encodings@ == self.encoding_list(),
            r.delimiters@ == self.delimiter_chars(),
            r.ascii_delimiters@.len() == 0x80,
            forall|code: int|
                0 <= code < 0x80 ==> r.ascii_delimiters@[code] == is_ascii_delimiter(self.delimiter_chars(), code),
            r.non_ascii_delimiters@ == non_ascii(self.delimiter_chars()),
    {
        proof {
            use_type_invariant(&self);
        }
        let ParsingSpecBuilder { rules: entries, placeholders, encodings, delimiters } = self;
        let mut rules: Vec<RootRule> = Vec::new();
        let mut remaining: Vec<(i32, String, AnchoredRegex)> = entries;
        let ghost list = remaining@;
        let ghost encs = encodings@;
        let ne: usize = encodings.len();
        let mut k: usize = 0;
        let ghost total: nat = list.len();
        let ghost mut sel: Seq<Seq<int>> = Seq::empty();
        proof {
            assert(remaining@ =~= list.subrange(0, total as int));
        }
        while remaining.len() > 0
            invariant
                k + remaining@.len() == total,
                total == list.len(),
                ne == encs.len(),
                encodings@ == encs,
                total * (ne + 1) < 0xffff,
                encodings_ok(encs),
                variants_fit(list, encs),
                forall|i: int| 0 <= i < encs.len() ==> (#[trigger] encs[i]).idx.0 == i + 1,
                remaining@ == list.subrange(k as int, total as int),
                forall|i: int|
                    0 <= i < list.len() ==> {
                        let re = (#[trigger] list[i]).2.regex;
                        numbered(re.captures(), 1, re.captures().len() + 1int) && re.wf()
                            && list[i].2.total_captures == re.captures().len() + 1
                    },
                sel.len() == k,
                selection_ok(sel, list.subrange(0, k as int), ne as int),
                rules@.len() == layout(sel).len(),
                rules@.len() <= k * (ne + 1),
                forall|j: int|
                    0 <= j < rules@.len() ==> rule_from(#[trigger] rules@[j], j, list[layout(sel)[j].0], layout(sel)[j].1),
            decreases remaining.len(),
        {
            let (priority, name, regex) = remaining.remove(0);
            proof {
                assert(remaining@ =~= list.subrange(k + 1, total as int));
                assert(list[k as int] == (priority, name, regex));
                assert(k + 1 <= total);
                assert(total <= total * (ne + 1)) by (nonlinear_arith);
                assert((k + 1) * (ne + 1) <= total * (ne + 1)) by (nonlinear_arith)
                    requires
                        k + 1 <= total,
                ;
                assert((k + 1) * (ne + 1) == k * (ne + 1) + ne + 1) by (nonlinear_arith);
            }
            let ghost base: int = rules@.len() as int;
            let ghost mut block: Seq<int> = Seq::empty();
            if regex.total_captures == 1 && ne > 0 {
                proof {
                    assert(variants_fit(list, encs));
                    assert(list[k as int].2.regex.captures().len() == 0);
                    assert(2 + build_cost(regex.regex, Seq::empty()) <= (2 + build_cost(regex.regex, Seq::empty())) * encs[0].nfa.states@.len()) by (nonlinear_arith)
                        requires
                            encs[0].nfa.states@.len() >= 1,
                    ;
                }
                let leaf: Tnfa = Tnfa::for_regex(&regex.regex);
                let mut e: usize = 0;
                while e < ne
                    invariant
                        0 <= e <= ne,
                        ne == encs.len(),
                        encodings@ == encs,
                        encodings_ok(encs),
                        forall|i: int| 0 <= i < encs.len() ==> (#[trigger] encs[i]).idx.0 == i + 1,
                        leaf.wf(),
                        leaf.states@.len() <= 2 + build_cost(regex.regex, Seq::empty()),
                        forall|i: int|
                            0 <= i < encs.len() ==> (2 + build_cost(regex.regex, Seq::empty())) * (
                            #[trigger] encs[i]).nfa.states@.len() <= usize::MAX,
                        regex.total_captures == 1,
                        regex.regex.captures().len() == 0,
                        regex.regex.wf(),
                        list[k as int] == (priority, name, regex),
                        rules@.len() == base + block.len(),
                        base == layout(sel).len(),
                        base <= k * (ne + 1),
                        block.len() <= e,
                        forall|a: int, b: int| 0 <= a < b < block.len() ==> block[a] < block[b],
                        forall|a: int| 0 <= a < block.len() ==> 0 <= #[trigger] block[a] < e,
                        forall|j: int|
                            0 <= j < base ==> rule_from(#[trigger] rules@[j], j, list[layout(sel)[j].0], layout(sel)[j].1),
                        forall|b: int|
                            0 <= b < block.len() ==> rule_from(#[trigger] rules@[base + b], base + b, list[k as int], Some(block[b])),
                        (k + 1) * (ne + 1) <= total * (ne + 1),
                        (k + 1) * (ne + 1) == k * (ne + 1) + ne + 1,
                        total * (ne + 1) < 0xffff,
                    decreases ne - e,
                {
                    proof {
                        assert(encs[e as int].nfa.wf());
                        let bc = 2 + build_cost(regex.regex, Seq::empty());
                        let m = encs[e as int].nfa.states@.len();
                        assert(leaf.states@.len() * m <= bc * m) by (nonlinear_arith)
                            requires
                                leaf.states@.len() <= bc,
                        ;
                    }
                    let inter: Tnfa = leaf.intersect(&encodings[e].nfa);
                    if inter.can_accept() {
                        let copy: AnchoredRegex = regex.deep_copy();
                        proof {
                            crate::regex::lemma_equiv_captures_len(copy.regex, regex.regex);
                        }
                        let idx: RuleIdx = RuleIdx((rules.len() + 1) as u16);
                        let rule: RootRule = RootRule::new(idx, name.clone(), priority, copy, Some(encodings[e].idx));
                        let ghost before = rules@;
                        rules.push(rule);
                        proof {
                            let old_block = block;
                            block = block.push(e as int);
                            assert forall|j: int| 0 <= j < base implies rule_from(
                                #[trigger] rules@[j],
                                j,
                                list[layout(sel)[j].0],
                                layout(sel)[j].1,
                            ) by {
                                assert(rules@[j] == before[j]);
                            }
                            assert forall|b: int| 0 <= b < block.len() implies rule_from(
                                #[trigger] rules@[base + b],
                                base + b,
                                list[k as int],
                                Some(block[b]),
                            ) by {
                                if b < old_block.len() {
                                    assert(rules@[base + b] == before[base + b]);
                                }
                            }
                        }
                    }
                    e = e + 1;
                }
            }
            proof {
                assert(rules@.len() + 1 <= total * (ne + 1));
            }
            let idx: RuleIdx = RuleIdx((rules.len() + 1) as u16);
            let rule: RootRule = RootRule::new(idx, name, priority, regex, None);
            let ghost before = rules@;
            rules.push(rule);
            proof {
                let old_sel = sel;
                sel = sel.push(block);
                assert(sel.drop_last() =~= old_sel);
                let lay = layout(sel);
                let old_lay = layout(old_sel);
                let mid = block.map_values(|e: int| (k as int, Some(e)));
                assert(lay == old_lay + mid + seq![(k as int, None::<int>)]);
                assert forall|j: int| 0 <= j < rules@.len() implies rule_from(
                    #[trigger] rules@[j],
                    j,
                    list[lay[j].0],
                    lay[j].1,
                ) by {
                    if j < base {
                        assert(rules@[j] == before[j]);
                        assert(lay[j] == old_lay[j]);
                    } else if j < base + block.len() {
                        assert(rules@[j] == before[j]);
                        assert(lay[j] == mid[j - base]);
                        assert(rules@[base + (j - base)] == rules@[j]);
                    } else {
                        assert(lay[j] == (k as int, None::<int>));
                    }
                }
                assert(list.subrange(0, k + 1).drop_last() =~= list.subrange(0, k as int));
                assert forall|q: int| 0 <= q < sel.len() implies selection_entry_ok(
                    #[trigger] sel[q],
                    list.subrange(0, k + 1)[q],
                    ne as int,
                ) by {
                    if q < k {
                        assert(sel[q] == old_sel[q]);
                        assert(list.subrange(0, k + 1)[q] == list.subrange(0, k as int)[q]);
                    }
                }
            }
            k = k + 1;
        }
        proof {
            assert(list.subrange(0, total as int) =~= list);
        }
        let mut ascii_delimiters: Vec<bool> = Vec::new();
        let mut code: u32 = 0;
        let dchars: Vec<char> = chars_of(delimiters.as_str());
        while code < 0x80
            invariant
                0 <= code <= 0x80,
                ascii_delimiters@.len() == code,
                dchars@ == delimiters@,
                forall|c: int| 0 <= c < code ==> ascii_delimiters@[c] == is_ascii_delimiter(dchars@, c),
            decreases 0x80 - code,
        {
            let mut found: bool = false;
            let mut j: usize = 0;
            while j < dchars.len()
                invariant
                    0 <= j <= dchars.len(),
                    code < 0x80,
                    found == exists|w: int| 0 <= w < j && (#[trigger] dchars@[w]) as int == code as int,
                decreases dchars.len() - j,
            {
                if char_code(dchars[j]) == code {
                    found = true;
                }
                j = j + 1;
            }
            ascii_delimiters.push(found);
            code = code + 1;
        }
        let mut non_ascii_delimiters: String = String::new();
        let mut j: usize = 0;
        while j < dchars.len()
            invariant
                0 <= j <= dchars.len(),
                non_ascii_delimiters@ == non_ascii(dchars@.subrange(0, j as int)),
            decreases dchars.len() - j,
        {
            proof {
                let next = dchars@.subrange(0, j + 1);
                assert(next.drop_last() =~= dchars@.subrange(0, j as int));
                reveal(Seq::filter);
            }
            if char_code(dchars[j]) >= 0x80 {
                push_char(&mut non_ascii_delimiters, dchars[j]);
            }
            j = j + 1;
        }
        proof {
            assert(dchars@.subrange(0, dchars@.len() as int) =~= dchars@);
            lemma_layout_range(sel);
            assert forall|q: int| 0 <= q < rules@.len() implies (#[trigger] rules@[q]).regex.regex.wf() by {
                assert(rule_from(rules@[q], q, list[layout(sel)[q].0], layout(sel)[q].1));
                assert(0 <= layout(sel)[q].0 < list.len());
            }
            assert forall|q: int| 0 <= q < rules@.len() implies {
                let rule = #[trigger] rules@[q];
                forall|j: int|
                    0 <= j < rule.rule_info@.len() ==> (#[trigger] rule.rule_info@[j]).root_idx == rule.idx
            } by {
                let rule = rules@[q];
                assert(rule_from(rules@[q], q, list[layout(sel)[q].0], layout(sel)[q].1));
                assert forall|j: int| 0 <= j < rule.rule_info@.len() implies (
                #[trigger] rule.rule_info@[j]).root_idx == rule.idx by {
                    if j > 0 {
                        let c = j - 1;
                        assert(rule.rule_info@[c + 1] == rule.rule_info@[j]);
                    }
                }
            }
        }
        ParsingSpec { rules, placeholders, delimiters, encodings, ascii_delimiters, non_ascii_delimiters }
    }
}

/// [`insertion_point`] is a position of the list or its end.
pub proof fn lemma_insertion_point_range(rules: Seq<(i32, String, AnchoredRegex)>, p: i32)
    ensures
        0 <= insertion_point(rules, p) <= rules.len(),
    decreases rules.len(),
{
    if rules.len() > 0 {
        lemma_insertion_point_range(rules.drop_first(), p);
    }
}

/// [`insertion_point`] is the first position whose priority is below `p`.
proof fn lemma_insertion_point(rules: Seq<(i32, String, AnchoredRegex)>, p: i32, at: int)
    requires
        0 <= at <= rules.len(),
        by_priority(rules),
        forall|k: int| 0 <= k < at ==> (#[trigger] rules[k]).0 >= p,
        at == rules.len() || rules[at].0 < p,
    ensures
        insertion_point(rules, p) == at,
    decreases at,
{
    if at > 0 {
        let rest = rules.drop_first();
        assert forall|i: int, j: int| 0 <= i < j < rest.len() implies rest[i].0 >= rest[j].0 by {
            assert(rest[i] == rules[i + 1]);
            assert(rest[j] == rules[j + 1]);
        }
        assert forall|k: int| 0 <= k < at - 1 implies (#[trigger] rest[k]).0 >= p by {
            assert(rest[k] == rules[k + 1]);
        }
        lemma_insertion_point(rest, p, at - 1);
    }
}

impl ParsingSpecBuilder {
    /// A copy of the placeholder named `name`, if any.
    pub fn find_placeholder(&self, name: &str) -> (r: Option<Regex>)
        ensures
            r matches Some(re) ==> re.wf() && exists|i: int|
                0 <= i < self.placeholder_list().len() && (#[trigger] self.placeholder_list()[i]).0@ == name@
                    && re.equiv(self.placeholder_list()[i].1),
            r is None ==> !has_name(self.placeholder_list(), name@),
            r matches Some(re) ==> placeholder_shape(self.placeholder_list(), name@) == Some(re.shape()),
    {
        proof {
            use_type_invariant(self);
        }
        let mut i: usize = 0;
        while i < self.placeholders.len()
            invariant
                0 <= i <= self.placeholders@.len(),
                forall|k: int| 0 <= k < i ==> (#[trigger] self.placeholders@[k]).0@ != name@,
                forall|k: int| 0 <= k < self.placeholders@.len() ==> (#[trigger] self.placeholders@[k]).1.wf(),
                unique_names(self.placeholders@),
            decreases self.placeholders.len() - i,
        {
            if str_eq(self.placeholders[i].0.as_str(), name) {
                let copy: Regex = self.placeholders[i].1.deep_copy();
                proof {
                    let list = self.placeholder_list();
                    assert(list == self.placeholders@);
                    assert(unique_names(list));
                    assert(list[i as int].0@ == name@);
                    assert(has_name(list, name@));
                    let j = choose|j: int| 0 <= j < list.len() && (#[trigger] list[j]).0@ == name@;
                    if j != i as int {
                        if j < i {
                            assert(list[j].0@ != list[i as int].0@);
                        } else {
                            assert(list[i as int].0@ != list[j].0@);
                        }
                    }
                    lemma_equiv_shape(copy, list[i as int].1);
                }
                return Some(copy);
            }
            i = i + 1;
        }
        None
    }
}

impl RegexPlaceholderLookup for ParsingSpecBuilder {
    open spec fn resolution(&self) -> spec_fn(Seq<char>) -> Option<RegexShape> {
        placeholder_shapes(self.placeholder_list())
    }

    /// A copy of the placeholder named `name`, if any.
    fn lookup(&mut self, name: &str) -> (r: Option<Regex>)
        ensures
            r matches Some(re) ==> exists|i: int|
                0 <= i < old(self).placeholder_list().len() && (#[trigger] old(self).placeholder_list()[i]).0@
                    == name@ && re.equiv(old(self).placeholder_list()[i].1),
            r is None ==> !has_name(old(self).placeholder_list(), name@),
            *final(self) == *old(self),
    {
        self.find_placeholder(name)
    }
}

/// Resolves placeholder names against a builder it only reads.
pub struct PlaceholderNames<'a> {
    pub builder: &'a ParsingSpecBuilder,
}

impl<'a> RegexPlaceholderLookup for PlaceholderNames<'a> {
    open spec fn resolution(&self) -> spec_fn(Seq<char>) -> Option<RegexShape> {
        placeholder_shapes(self.builder.placeholder_list())
    }

    /// A copy of the builder's placeholder named `name`, if any.
    fn lookup(&mut self, name: &str) -> (r: Option<Regex>)
        ensures
            r matches Some(re) ==> exists|i: int|
                0 <= i < old(self).builder.placeholder_list().len() && (#[trigger] old(
                    self,
                ).builder.placeholder_list()[i]).0@ == name@ && re.equiv(old(self).builder.placeholder_list()[i].1),
            r is None ==> !has_name(old(self).builder.placeholder_list(), name@),
    {
        self.builder.find_placeholder(name)
    }
}

impl ParsingSpec {
    /// The rules are numbered from 1 in order, and each describes itself at
    /// position 0 of its [`RuleInfo`]s.
    pub open spec fn wf(&self) -> bool {
        &&& self.rules@.len() < 0xffff
        &&& forall|k: int|
            0 <= k < self.rules@.len() ==> {
                let rule = #[trigger] self.rules@[k];
                &&& rule.idx.0 == k + 1
                &&& rule.rule_info@.len() >= 1
                &&& rule.regex.regex.wf()
                &&& rule.rule_info@[0].maybe_sub_rule is None
                &&& forall|j: int|
                    0 <= j < rule.rule_info@.len() ==> (#[trigger] rule.rule_info@[j]).root_idx == rule.idx
            }
    }
}


/// The rows that `rule` contributes for the dotted name `parts`: the rule
/// itself when `parts` is its name alone, else the captures reached by the
/// remaining parts, each with its [`RuleInfo`].
pub open spec fn rule_rows(rule: RootRule, parts: Seq<Seq<char>>) -> Seq<(RuleInfo, Regex)> {
    if parts.len() == 0 || rule.name@ != parts[0] {
        Seq::empty()
    } else if parts.len() == 1 {
        seq![(rule.rule_info@[0], rule.regex.regex)]
    } else {
        name_matches(rule.regex.regex, parts[1], parts.subrange(2, parts.len() as int), rule.rule_info@.len()).map_values(
            |m: Regex| (rule.rule_info@[m->Capture_0.id as int], m),
        )
    }
}

/// [`rule_rows`] of each rule, in order.
pub open spec fn rows_for_name(rules: Seq<RootRule>, parts: Seq<Seq<char>>) -> Seq<(RuleInfo, Regex)>
    decreases rules.len(),
{
    if rules.len() == 0 {
        Seq::empty()
    } else {
        rows_for_name(rules.drop_last(), parts) + rule_rows(rules.last(), parts)
    }
}

/// The strings of `parts`, borrowed.
fn borrow_all<'a>(parts: &'a Vec<String>, from: usize) -> (r: Vec<&'a str>)
    requires
        from <= parts@.len(),
    ensures
        r@.len() == parts@.len() - from,
        forall|k: int| 0 <= k < r@.len() ==> (#[trigger] r@[k])@ == parts@[from + k]@,
{
    let mut out: Vec<&'a str> = Vec::new();
    let mut i: usize = from;
    while i < parts.len()
        invariant
            from <= i <= parts@.len(),
            out@.len() == i - from,
            forall|k: int| 0 <= k < out@.len() ==> (#[trigger] out@[k])@ == parts@[from + k]@,
        decreases parts.len() - i,
    {
        out.push(parts[i].as_str());
        i = i + 1;
    }
    out
}

impl ParsingSpec {
    /// The rule with index `idx`.
    pub fn rule(&self, idx: RuleIdx) -> (r: &RootRule)
        requires
            1 <= idx.0 <= self.rules@.len(),
        ensures
            *r == self.rules@[idx.0 - 1],
    {
        &self.rules[(idx.0 - 1) as usize]
    }

    /// The (sub-)rules whose fully qualified name is exactly `name`: the
    /// rules named `name`, or, for `rule.a.b`, the captures `b` directly or
    /// indirectly inside captures `a` of the rules named `rule`; each with
    /// its [`RuleInfo`] and its expression (for a capture, the capture itself).
    pub fn rules_for_name<'a>(&'a self, name: &str) -> (r: Vec<(&'a RuleInfo, &'a Regex)>)
        requires
            self.wf(),
        ensures
            r@.len() == rows_for_name(self.rules@, split_dots(name@)).len(),
            forall|k: int|
                0 <= k < r@.len() ==> {
                    let row = rows_for_name(self.rules@, split_dots(name@))[k];
                    &&& *(#[trigger] r@[k]).0 == row.0
                    &&& *r@[k].1 == row.1
                },
    {
        let chars: Vec<char> = chars_of(name);
        let pieces: Vec<Vec<char>> = split_on_dots(&chars);
        let ghost parts = split_dots(name@);
        proof {
            crate::parsing_spec::shape_text::lemma_split_dots_nonempty(name@);
        }
        let mut strings: Vec<String> = Vec::new();
        let mut i: usize = 0;
        while i < pieces.len()
            invariant
                0 <= i <= pieces@.len(),
                pieces@.len() == parts.len(),
                forall|k: int| 0 <= k < pieces@.len() ==> (#[trigger] pieces@[k])@ == parts[k],
                strings@.len() == i,
                forall|k: int| 0 <= k < i ==> (#[trigger] strings@[k])@ == parts[k],
            decreases pieces.len() - i,
        {
            strings.push(string_of(pieces[i].as_slice()));
            i = i + 1;
        }
        let rest: Vec<&str> = if strings.len() > 2 {
            borrow_all(&strings, 2)
        } else {
            Vec::new()
        };
        proof {
            if parts.len() > 1 {
                assert(views_of(rest@) =~= parts.subrange(2, parts.len() as int));
            }
        }
        let mut out: Vec<(&'a RuleInfo, &'a Regex)> = Vec::new();
        let mut k: usize = 0;
        while k < self.rules.len()
            invariant
                0 <= k <= self.rules@.len(),
                self.wf(),
                strings@.len() == parts.len(),
                parts.len() >= 1,
                forall|q: int| 0 <= q < strings@.len() ==> (#[trigger] strings@[q])@ == parts[q],
                parts.len() > 1 ==> views_of(rest@) == parts.subrange(2, parts.len() as int),
                out@.len() == rows_for_name(self.rules@.subrange(0, k as int), parts).len(),
                forall|q: int|
                    0 <= q < out@.len() ==> {
                        let row = rows_for_name(self.rules@.subrange(0, k as int), parts)[q];
                        &&& *(#[trigger] out@[q]).0 == row.0
                        &&& *out@[q].1 == row.1
                    },
            decreases self.rules.len() - k,
        {
            let rule: &RootRule = &self.rules[k];
            let ghost before = out@;
            let ghost prefix = rows_for_name(self.rules@.subrange(0, k as int), parts);
            let ghost added = rule_rows(*rule, parts);
            proof {
                let next = self.rules@.subrange(0, k + 1);
                assert(next.drop_last() =~= self.rules@.subrange(0, k as int));
                assert(next.last() == *rule);
                assert(rows_for_name(next, parts) == prefix + added);
            }
            if str_eq(rule.name.as_str(), strings[0].as_str()) {
                if strings.len() > 1 {
                    rule.find_capture(&rule.regex.regex, strings[1].as_str(), rest.as_slice(), &mut out);
                    proof {
                        let ms = name_matches(
                            rule.regex.regex,
                            parts[1],
                            parts.subrange(2, parts.len() as int),
                            rule.rule_info@.len(),
                        );
                        assert(added == ms.map_values(|m: Regex| (rule.rule_info@[m->Capture_0.id as int], m)));
                        assert forall|q: int| 0 <= q < (prefix + added).len() implies {
                            let row = (prefix + added)[q];
                            &&& *(#[trigger] out@[q]).0 == row.0
                            &&& *out@[q].1 == row.1
                        } by {
                            if q < prefix.len() {
                                assert(out@[q] == before[q]);
                            } else {
                                assert(out@[before.len() + (q - prefix.len())] == out@[q]);
                            }
                        }
                    }
                } else {
                    out.push((&rule.rule_info[0], &rule.regex.regex));
                    proof {
                        assert forall|q: int| 0 <= q < (prefix + added).len() implies {
                            let row = (prefix + added)[q];
                            &&& *(#[trigger] out@[q]).0 == row.0
                            &&& *out@[q].1 == row.1
                        } by {
                            if q < prefix.len() {
                                assert(out@[q] == before[q]);
                            }
                        }
                    }
                }
            } else {
                proof {
                    assert(added =~= Seq::<(RuleInfo, Regex)>::empty());
                    assert(prefix + added =~= prefix);
                }
            }
            k = k + 1;
        }
        proof {
            assert(self.rules@.subrange(0, self.rules@.len() as int) =~= self.rules@);
        }
        out
    }

    /// Splits a log shape into static text and rule names: `%name%` names a
    /// rule and `%%` is a literal `%`; see [`shape_fragments`].
    pub fn split_log_shape(&self, shape: &str) -> (r: Vec<LogShapeFragment>)
        ensures
            r@.map_values(|f: LogShapeFragment| fragment_view(f)) == shape_fragments(shape@),
    {
        split_shape(shape)
    }
}

/// Each row's [`RuleInfo`] belongs to one of the rules.
pub proof fn lemma_rows_root_idx(rules: Seq<RootRule>, parts: Seq<Seq<char>>)
    requires
        forall|k: int|
            0 <= k < rules.len() ==> {
                let rule = #[trigger] rules[k];
                &&& rule.idx.0 == k + 1
                &&& rule.rule_info@.len() >= 1
                &&& forall|j: int|
                    0 <= j < rule.rule_info@.len() ==> (#[trigger] rule.rule_info@[j]).root_idx == rule.idx
            },
    ensures
        forall|q: int|
            0 <= q < rows_for_name(rules, parts).len() ==> 1 <= (#[trigger] rows_for_name(rules, parts)[q]).0.root_idx.0
                <= rules.len(),
    decreases rules.len(),
{
    if rules.len() > 0 {
        let init = rules.drop_last();
        assert forall|k: int| 0 <= k < init.len() implies {
            let rule = #[trigger] init[k];
            &&& rule.idx.0 == k + 1
            &&& rule.rule_info@.len() >= 1
            &&& forall|j: int|
                0 <= j < rule.rule_info@.len() ==> (#[trigger] rule.rule_info@[j]).root_idx == rule.idx
        } by {
            assert(init[k] == rules[k]);
        }
        lemma_rows_root_idx(init, parts);
        let rule = rules.last();
        assert(rule == rules[rules.len() - 1]);
        let a = rows_for_name(init, parts);
        let b = rule_rows(rule, parts);
        if parts.len() > 1 && rule.name@ == parts[0] {
            rule::lemma_name_matches_ids(
                rule.regex.regex,
                parts[1],
                parts.subrange(2, parts.len() as int),
                rule.rule_info@.len(),
            );
            assert forall|q: int| 0 <= q < b.len() implies (#[trigger] b[q]).0.root_idx == rule.idx by {
                let m = name_matches(
                    rule.regex.regex,
                    parts[1],
                    parts.subrange(2, parts.len() as int),
                    rule.rule_info@.len(),
                )[q];
                assert(rule::capture_below(m, rule.rule_info@.len()));
                assert(b[q].0 == rule.rule_info@[m->Capture_0.id as int]);
            }
        }
        assert forall|q: int| 0 <= q < (a + b).len() implies 1 <= (#[trigger] (a + b)[q]).0.root_idx.0
            <= rules.len() by {
            if q >= a.len() {
                assert((a + b)[q] == b[q - a.len()]);
            }
        }
    }
}

} // verus!
