//! Root rules and the sub-rules (captures) nested in them.

use vstd::prelude::*;

use crate::parsing_spec::EncodingIdx;
use crate::regex::AnchoredRegex;
use crate::regex::Regex;
use crate::regex::captures_of_items;
use crate::regex::numbered;
use crate::text::concat;
use crate::text::str_eq;

verus! {

/// Index of a root rule in a parsing specification, starting at 1.
#[derive(Debug, Clone, Copy, PartialEq, Eq, Structural, PartialOrd, Ord, Hash)]
pub struct RuleIdx(pub u16);

/// A named capture inside a rule's pattern.
#[derive(Debug, PartialEq, Eq)]
pub struct SubRule {
    pub name: String,
    pub regex: Regex,
    pub root_rule_idx: RuleIdx,
    /// Numbered left to right from 1 in the order of the opening parentheses.
    pub id: u16,
    /// The enclosing capture, if any.
    pub parent_id: Option<u16>,
    /// The number of captures nested inside, at any depth; 0 for a leaf.
    pub descendents: usize,
    /// Names of the enclosing captures and this one, each after a dot: `.a.b`.
    pub qualified_name: String,
    /// The root rule's name followed by the qualified name.
    pub fully_qualified_name: String,
}

/// What is known of a root rule or of one of its sub-rules.
#[derive(Debug)]
pub struct RuleInfo {
    pub root_idx: RuleIdx,
    pub root_name: String,
    /// The sub-rule, unless this describes the root rule itself.
    pub maybe_sub_rule: Option<SubRule>,
    pub fully_qualified_name: String,
}

/// A rule of a parsing specification, with one [`RuleInfo`] for itself
/// (at position 0) and one for each capture, at the position of its id.
#[derive(Debug)]
pub struct RootRule {
    pub idx: RuleIdx,
    pub name: String,
    /// Priority given by the user; larger is preferred.
    pub priority: i32,
    pub regex: AnchoredRegex,
    pub rule_info: Vec<RuleInfo>,
    /// The encoding this variant of the rule is restricted to, if any.
    pub maybe_encoding: Option<EncodingIdx>,
}

impl RuleIdx {
    /// The index that belongs to no rule, used by automata for search and
    /// for encodings.
    pub fn nil() -> (r: RuleIdx)
        ensures
            r.0 == 0,
    {
        RuleIdx(0)
    }

    pub fn new(idx: u16) -> (r: RuleIdx)
        requires
            idx >= 1,
        ensures
            r.0 == idx,
    {
        RuleIdx(idx)
    }
}

/// `info` describes the root rule `idx` named `name`.
pub open spec fn is_root_info(info: RuleInfo, idx: RuleIdx, name: Seq<char>) -> bool {
    &&& info.root_idx == idx
    &&& info.root_name@ == name
    &&& info.maybe_sub_rule is None
    &&& info.fully_qualified_name@ == name
}

/// `info` describes the capture `sub_rule` of the root rule `idx` named `name`.
pub open spec fn is_sub_rule_info(info: RuleInfo, idx: RuleIdx, name: Seq<char>, sub_rule: SubRule) -> bool {
    &&& info.root_idx == idx
    &&& info.root_name@ == name
    &&& info.maybe_sub_rule matches Some(s) && labelled(s, sub_rule, idx, name)
    &&& info.fully_qualified_name@ == name + sub_rule.qualified_name@
}

/// `s` is the capture `sub_rule` as reported under the root rule `idx`
/// named `name`: the same capture, with the rule's index and its fully
/// qualified name.
pub open spec fn labelled(s: SubRule, sub_rule: SubRule, idx: RuleIdx, name: Seq<char>) -> bool {
    &&& s.regex.equiv(sub_rule.regex)
    &&& s.regex.wf() == sub_rule.regex.wf()
    &&& s.regex.nullable() == sub_rule.regex.nullable()
    &&& s.name == sub_rule.name
    &&& s.id == sub_rule.id
    &&& s.parent_id == sub_rule.parent_id
    &&& s.descendents == sub_rule.descendents
    &&& s.qualified_name == sub_rule.qualified_name
    &&& s.root_rule_idx == idx
    &&& s.fully_qualified_name@ == name + sub_rule.qualified_name@
}

/// The capture nodes of `re` whose names, from the outermost down, are
/// `first` followed by `rest`, in the order of their opening parentheses,
/// and whose ids are below `bound`. A capture whose name differs is not
/// searched further.
pub open spec fn name_matches(re: Regex, first: Seq<char>, rest: Seq<Seq<char>>, bound: nat) -> Seq<Regex>
    decreases re,
{
    match re {
        Regex::Capture(sub_rule) => if sub_rule.name@ == first {
            if rest.len() > 0 {
                name_matches(sub_rule.regex, rest[0], rest.drop_first(), bound)
            } else if sub_rule.id < bound {
                seq![re]
            } else {
                Seq::empty()
            }
        } else {
            Seq::empty()
        },
        Regex::KleeneClosure(item) => name_matches(*item, first, rest, bound),
        Regex::KleenePlus(item) => name_matches(*item, first, rest, bound),
        Regex::BoundedRepetition { item, .. } => name_matches(*item, first, rest, bound),
        Regex::Placeholder { item, .. } => name_matches(*item, first, rest, bound),
        Regex::Sequence(items) => name_matches_of_items(items@, first, rest, bound),
        Regex::Alternation(items) => name_matches_of_items(items@, first, rest, bound),
        _ => Seq::empty(),
    }
}

/// [`name_matches`] over a list of expressions, one after another.
pub open spec fn name_matches_of_items(items: Seq<Regex>, first: Seq<char>, rest: Seq<Seq<char>>, bound: nat) -> Seq<
    Regex,
>
    decreases items,
{
    if items.len() == 0 {
        Seq::empty()
    } else {
        name_matches_of_items(items.subrange(0, items.len() - 1), first, rest, bound) + name_matches(
            items[items.len() - 1],
            first,
            rest,
            bound,
        )
    }
}

/// The names of the captures around the `k`-th capture of `re` (in the order
/// of [`Regex::captures`]), from the outermost down to its own name.
pub open spec fn capture_path(re: Regex, k: int) -> Seq<Seq<char>>
    decreases re,
{
    match re {
        Regex::Capture(sub_rule) => if k == 0 {
            seq![sub_rule.name@]
        } else {
            seq![sub_rule.name@] + capture_path(sub_rule.regex, k - 1)
        },
        Regex::KleeneClosure(item) => capture_path(*item, k),
        Regex::KleenePlus(item) => capture_path(*item, k),
        Regex::BoundedRepetition { item, .. } => capture_path(*item, k),
        Regex::Sequence(items) => capture_path_of_items(items@, k),
        Regex::Alternation(items) => capture_path_of_items(items@, k),
        _ => Seq::empty(),
    }
}

/// [`capture_path`] over a list of expressions, one after another.
pub open spec fn capture_path_of_items(items: Seq<Regex>, k: int) -> Seq<Seq<char>>
    decreases items,
{
    if items.len() == 0 {
        Seq::empty()
    } else {
        let init = items.subrange(0, items.len() - 1);
        let n = captures_of_items(init).len() as int;
        if k < n {
            capture_path_of_items(init, k)
        } else {
            capture_path(items[items.len() - 1], k - n)
        }
    }
}

/// Every capture has a path of at least its own name.
proof fn lemma_capture_path_nonempty(re: Regex, k: int)
    requires
        0 <= k < re.captures().len(),
    ensures
        capture_path(re, k).len() >= 1,
    decreases re,
{
    match re {
        Regex::Capture(sub_rule) => {},
        Regex::KleeneClosure(item) => lemma_capture_path_nonempty(*item, k),
        Regex::KleenePlus(item) => lemma_capture_path_nonempty(*item, k),
        Regex::BoundedRepetition { item, .. } => lemma_capture_path_nonempty(*item, k),
        Regex::Sequence(items) => lemma_capture_path_nonempty_items(items@, k),
        Regex::Alternation(items) => lemma_capture_path_nonempty_items(items@, k),
        _ => {},
    }
}

proof fn lemma_capture_path_nonempty_items(items: Seq<Regex>, k: int)
    requires
        0 <= k < captures_of_items(items).len(),
    ensures
        capture_path_of_items(items, k).len() >= 1,
    decreases items,
{
    if items.len() > 0 {
        let init = items.subrange(0, items.len() - 1);
        let n = captures_of_items(init).len() as int;
        if k < n {
            lemma_capture_path_nonempty_items(init, k);
        } else {
            lemma_capture_path_nonempty(items[items.len() - 1], k - n);
        }
    }
}

/// Looking up the names around a capture, from the outermost down, finds
/// that capture, whatever operators enclose it.
pub proof fn lemma_capture_found(re: Regex, k: int, first: Seq<char>, rest: Seq<Seq<char>>, bound: nat)
    requires
        0 <= k < re.captures().len(),
        capture_path(re, k) == seq![first] + rest,
        re.captures()[k].id < bound,
    ensures
        name_matches(re, first, rest, bound).contains(Regex::Capture(Box::new(re.captures()[k]))),
    decreases re,
{
    match re {
        Regex::Capture(sub_rule) => {
            let path = capture_path(re, k);
            assert(path[0] == first);
            assert(first == sub_rule.name@);
            if k == 0 {
                assert(rest.len() == 0) by {
                    assert(path.len() == 1);
                }
                assert(re.captures()[0] == *sub_rule);
                assert(name_matches(re, first, rest, bound) == seq![re]);
                assert(seq![re][0] == re);
            } else {
                lemma_capture_path_nonempty(sub_rule.regex, k - 1);
                let inner = capture_path(sub_rule.regex, k - 1);
                assert(rest =~= inner) by {
                    assert(path =~= seq![sub_rule.name@] + inner);
                    assert(rest =~= path.drop_first());
                    assert((seq![sub_rule.name@] + inner).drop_first() =~= inner);
                }
                assert(inner =~= seq![rest[0]] + rest.drop_first());
                assert(re.captures()[k] == sub_rule.regex.captures()[k - 1]);
                lemma_capture_found(sub_rule.regex, k - 1, rest[0], rest.drop_first(), bound);
            }
        },
        Regex::KleeneClosure(item) => lemma_capture_found(*item, k, first, rest, bound),
        Regex::KleenePlus(item) => lemma_capture_found(*item, k, first, rest, bound),
        Regex::BoundedRepetition { item, .. } => lemma_capture_found(*item, k, first, rest, bound),
        Regex::Sequence(items) => lemma_capture_found_items(items@, k, first, rest, bound),
        Regex::Alternation(items) => lemma_capture_found_items(items@, k, first, rest, bound),
        _ => {},
    }
}

proof fn lemma_capture_found_items(items: Seq<Regex>, k: int, first: Seq<char>, rest: Seq<Seq<char>>, bound: nat)
    requires
        0 <= k < captures_of_items(items).len(),
        capture_path_of_items(items, k) == seq![first] + rest,
        captures_of_items(items)[k].id < bound,
    ensures
        name_matches_of_items(items, first, rest, bound).contains(Regex::Capture(Box::new(captures_of_items(items)[k]))),
    decreases items,
{
    if items.len() > 0 {
        let init = items.subrange(0, items.len() - 1);
        let last = items[items.len() - 1];
        let n = captures_of_items(init).len() as int;
        let a = name_matches_of_items(init, first, rest, bound);
        let b = name_matches(last, first, rest, bound);
        let x = Regex::Capture(Box::new(captures_of_items(items)[k]));
        if k < n {
            assert(captures_of_items(items)[k] == captures_of_items(init)[k]);
            lemma_capture_found_items(init, k, first, rest, bound);
            let j = choose|j: int| 0 <= j < a.len() && a[j] == x;
            assert((a + b)[j] == x);
        } else {
            assert(captures_of_items(items)[k] == last.captures()[k - n]);
            lemma_capture_found(last, k - n, first, rest, bound);
            let j = choose|j: int| 0 <= j < b.len() && b[j] == x;
            assert((a + b)[a.len() + j] == x);
        }
    }
}

/// The characters of each of `parts`.
pub open spec fn views_of(parts: Seq<&str>) -> Seq<Seq<char>> {
    parts.map_values(|p: &str| p@)
}

impl RootRule {
    /// Builds the rule and a [`RuleInfo`] for it and for each of its captures.
    pub fn new(idx: RuleIdx, name: String, priority: i32, regex: AnchoredRegex, maybe_encoding: Option<EncodingIdx>) -> (r: RootRule)
        requires
            numbered(regex.regex.captures(), 1, regex.regex.captures().len() + 1int),
        ensures
            r.maybe_encoding == maybe_encoding,
            r.idx == idx,
            r.name@ == name@,
            r.priority == priority,
            r.regex == regex,
            r.rule_info.len() == regex.regex.captures().len() + 1,
            is_root_info(r.rule_info@[0], idx, name@),
            forall|k: int|
                0 <= k < regex.regex.captures().len() ==> is_sub_rule_info(
                    #[trigger] r.rule_info@[k + 1],
                    idx,
                    name@,
                    regex.regex.captures()[k],
                ),
    {
        let mut rule_info: Vec<RuleInfo> = Vec::new();
        rule_info.push(
            RuleInfo {
                root_idx: idx,
                root_name: name.clone(),
                maybe_sub_rule: None,
                fully_qualified_name: name.clone(),
            },
        );
        collect_rule_info(&regex.regex, idx, &name, &mut rule_info);
        RootRule { idx, name, priority, regex, rule_info, maybe_encoding }
    }

    /// Whether the rule has any capture.
    pub fn has_captures(&self) -> (r: bool)
        ensures
            r == (self.rule_info.len() > 1),
    {
        self.rule_info.len() > 1
    }

    /// Appends to `collect` the captures of `current_regex` whose nested names
    /// are `first` followed by `rest`, each with its [`RuleInfo`].
    pub fn find_capture<'a>(
        &'a self,
        current_regex: &'a Regex,
        first: &str,
        rest: &[&str],
        collect: &mut Vec<(&'a RuleInfo, &'a Regex)>,
    )
        ensures
            final(collect)@.len() == old(collect)@.len() + name_matches(
                *current_regex,
                first@,
                views_of(rest@),
                self.rule_info@.len(),
            ).len(),
            forall|k: int| 0 <= k < old(collect)@.len() ==> #[trigger] final(collect)@[k] == old(collect)@[k],
            forall|k: int|
                0 <= k < name_matches(*current_regex, first@, views_of(rest@), self.rule_info@.len()).len()
                    ==> {
                    let m = name_matches(*current_regex, first@, views_of(rest@), self.rule_info@.len())[k];
                    let pair = #[trigger] final(collect)@[old(collect)@.len() + k];
                    &&& *pair.1 == m
                    &&& m is Capture
                    &&& *pair.0 == self.rule_info@[m->Capture_0.id as int]
                },
        decreases *current_regex,
    {
        let ghost bound: nat = self.rule_info@.len();
        let ghost path: Seq<Seq<char>> = views_of(rest@);
        match current_regex {
            Regex::AnyChar | Regex::Literal(..) | Regex::BracketedRanges { .. } => {},
            Regex::Capture(sub_rule) => {
                if str_eq(sub_rule.name.as_str(), first) {
                    if rest.len() > 0 {
                        let next: &str = rest[0];
                        let tail: &[&str] = slice_tail(rest);
                        proof {
                            assert(views_of(tail@) =~= path.drop_first());
                        }
                        self.find_capture(&sub_rule.regex, next, tail, collect);
                    } else {
                        let id: usize = sub_rule.id as usize;
                        if id < self.rule_info.len() {
                            collect.push((&self.rule_info[id], current_regex));
                        }
                    }
                }
            },
            Regex::KleeneClosure(item) | Regex::KleenePlus(item) | Regex::BoundedRepetition { item, .. }
            | Regex::Placeholder { item, .. } => {
                self.find_capture(item, first, rest, collect);
            },
            Regex::Sequence(items) | Regex::Alternation(items) => {
                self.find_capture_in_items(current_regex, items, first, rest, collect);
            },
        }
    }

    #[verifier::loop_isolation(false)]
    fn find_capture_in_items<'a>(
        &'a self,
        parent: &'a Regex,
        items: &'a Vec<Regex>,
        first: &str,
        rest: &[&str],
        collect: &mut Vec<(&'a RuleInfo, &'a Regex)>,
    )
        requires
            (parent matches Regex::Sequence(v) && v == *items) || (parent matches Regex::Alternation(v)
                && v == *items),
        ensures
            final(collect)@.len() == old(collect)@.len() + name_matches_of_items(
                items@,
                first@,
                views_of(rest@),
                self.rule_info@.len(),
            ).len(),
            forall|k: int| 0 <= k < old(collect)@.len() ==> #[trigger] final(collect)@[k] == old(collect)@[k],
            forall|k: int|
                0 <= k < name_matches_of_items(items@, first@, views_of(rest@), self.rule_info@.len()).len()
                    ==> {
                    let m = name_matches_of_items(items@, first@, views_of(rest@), self.rule_info@.len())[k];
                    let pair = #[trigger] final(collect)@[old(collect)@.len() + k];
                    &&& *pair.1 == m
                    &&& m is Capture
                    &&& *pair.0 == self.rule_info@[m->Capture_0.id as int]
                },
        decreases *parent, 0nat,
    {
        let ghost bound: nat = self.rule_info@.len();
        let ghost path: Seq<Seq<char>> = views_of(rest@);
        let ghost start: nat = collect@.len();
        let mut i: usize = 0;
        while i < items.len()
            invariant
                0 <= i <= items.len(),
                collect@.len() == start + name_matches_of_items(items@.subrange(0, i as int), first@, path, bound).len(),
                forall|k: int| 0 <= k < start ==> #[trigger] collect@[k] == old(collect)@[k],
                forall|k: int|
                    0 <= k < name_matches_of_items(items@.subrange(0, i as int), first@, path, bound).len() ==> {
                        let m = name_matches_of_items(items@.subrange(0, i as int), first@, path, bound)[k];
                        let pair = #[trigger] collect@[start + k];
                        &&& *pair.1 == m
                        &&& m is Capture
                        &&& *pair.0 == self.rule_info@[m->Capture_0.id as int]
                    },
            decreases items.len() - i,
        {
            let ghost before = collect@;
            let ghost prefix = name_matches_of_items(items@.subrange(0, i as int), first@, path, bound);
            proof {
                assert(decreases_to!(*parent => *items));
                assert(decreases_to!(*items => items@[i as int]));
            }
            self.find_capture(&items[i], first, rest, collect);
            proof {
                let next = items@.subrange(0, i + 1);
                assert(next.subrange(0, next.len() - 1) =~= items@.subrange(0, i as int));
                assert(next[next.len() - 1] == items@[i as int]);
                let added = name_matches(items@[i as int], first@, path, bound);
                assert(name_matches_of_items(next, first@, path, bound) == prefix + added);
                assert forall|k: int| 0 <= k < (prefix + added).len() implies {
                    let m = (prefix + added)[k];
                    let pair = #[trigger] collect@[start + k];
                    &&& *pair.1 == m
                    &&& m is Capture
                    &&& *pair.0 == self.rule_info@[m->Capture_0.id as int]
                } by {
                    if k < prefix.len() {
                        assert(collect@[start + k] == before[start + k]);
                    } else {
                        assert(start + k == before.len() + (k - prefix.len()));
                    }
                }
            }
            i = i + 1;
        }
        proof {
            assert(items@.subrange(0, items@.len() as int) =~= items@);
        }
    }
}

/// `s` without its first element.
fn slice_tail<'a, 'b>(s: &'b [&'a str]) -> (r: &'b [&'a str])
    requires
        s@.len() > 0,
    ensures
        r@ == s@.drop_first(),
{
    vstd::slice::slice_subrange(s, 1, s.len())
}

/// Appends a [`RuleInfo`] for each capture of `re`, in order.
#[verifier::loop_isolation(false)]
fn collect_rule_info(re: &Regex, idx: RuleIdx, name: &String, infos: &mut Vec<RuleInfo>)
    ensures
        final(infos)@.len() == old(infos)@.len() + re.captures().len(),
        forall|k: int| 0 <= k < old(infos)@.len() ==> #[trigger] final(infos)@[k] == old(infos)@[k],
        forall|k: int|
            0 <= k < re.captures().len() ==> is_sub_rule_info(
                #[trigger] final(infos)@[old(infos)@.len() + k],
                idx,
                name@,
                re.captures()[k],
            ),
    decreases *re,
{
    let ghost start: nat = infos@.len();
    match re {
        Regex::AnyChar | Regex::Literal(..) | Regex::BracketedRanges { .. } => {},
        Regex::Capture(sub_rule) => {
            infos.push(
                RuleInfo {
                    root_idx: idx,
                    root_name: name.clone(),
                    maybe_sub_rule: Some(
                        SubRule {
                            name: sub_rule.name.clone(),
                            regex: sub_rule.regex.deep_copy(),
                            root_rule_idx: idx,
                            id: sub_rule.id,
                            parent_id: sub_rule.parent_id,
                            descendents: sub_rule.descendents,
                            qualified_name: sub_rule.qualified_name.clone(),
                            fully_qualified_name: concat(name.as_str(), sub_rule.qualified_name.as_str()),
                        },
                    ),
                    fully_qualified_name: concat(name.as_str(), sub_rule.qualified_name.as_str()),
                },
            );
            let ghost pushed = infos@;
            collect_rule_info(&sub_rule.regex, idx, name, infos);
            proof {
                let caps = re.captures();
                assert(caps == seq![**sub_rule] + sub_rule.regex.captures());
                assert forall|k: int| 0 <= k < caps.len() implies is_sub_rule_info(
                    #[trigger] infos@[start + k],
                    idx,
                    name@,
                    caps[k],
                ) by {
                    if k == 0 {
                        assert(infos@[start as int] == pushed[start as int]);
                    } else {
                        assert(caps[k] == sub_rule.regex.captures()[k - 1]);
                        assert(start + k == pushed.len() + (k - 1));
                    }
                }
            }
        },
        Regex::KleeneClosure(item) | Regex::KleenePlus(item) | Regex::BoundedRepetition { item, .. } => {
            collect_rule_info(item, idx, name, infos);
        },
        Regex::Placeholder { .. } => {},
        Regex::Sequence(items) | Regex::Alternation(items) => {
            let mut i: usize = 0;
            while i < items.len()
                invariant
                    0 <= i <= items.len(),
                    infos@.len() == start + captures_of_items(items@.subrange(0, i as int)).len(),
                    forall|k: int| 0 <= k < start ==> #[trigger] infos@[k] == old(infos)@[k],
                    forall|k: int|
                        0 <= k < captures_of_items(items@.subrange(0, i as int)).len() ==> is_sub_rule_info(
                            #[trigger] infos@[start + k],
                            idx,
                            name@,
                            captures_of_items(items@.subrange(0, i as int))[k],
                        ),
                decreases items.len() - i,
            {
                let ghost before = infos@;
                let ghost prefix = captures_of_items(items@.subrange(0, i as int));
                proof {
                    assert(decreases_to!(*re => *items));
                    assert(decreases_to!(*items => items@[i as int]));
                }
                collect_rule_info(&items[i], idx, name, infos);
                proof {
                    let next = items@.subrange(0, i + 1);
                    assert(next.subrange(0, next.len() - 1) =~= items@.subrange(0, i as int));
                    let added = items@[i as int].captures();
                    assert(captures_of_items(next) == prefix + added);
                    assert forall|k: int| 0 <= k < (prefix + added).len() implies is_sub_rule_info(
                        #[trigger] infos@[start + k],
                        idx,
                        name@,
                        (prefix + added)[k],
                    ) by {
                        if k < prefix.len() {
                            assert(infos@[start + k] == before[start + k]);
                        } else {
                            assert(start + k == before.len() + (k - prefix.len()));
                        }
                    }
                }
                i = i + 1;
            }
            proof {
                assert(items@.subrange(0, items@.len() as int) =~= items@);
            }
        },
    }
}

impl SubRule {
    pub fn id_as_usize(&self) -> (r: usize)
        ensures
            r == self.id,
    {
        self.id as usize
    }

    /// Whether no capture is nested inside.
    pub fn is_leaf(&self) -> (r: bool)
        ensures
            r == (self.descendents == 0),
    {
        self.descendents == 0
    }
}

impl RuleInfo {
    /// The sub-rule's name, or the empty string for a root rule.
    pub fn sub_rule_name(&self) -> (r: &str)
        ensures
            r@ == (match self.maybe_sub_rule {
                Some(s) => s.name@,
                None => Seq::<char>::empty(),
            }),
    {
        match &self.maybe_sub_rule {
            Some(sub_rule) => sub_rule.name.as_str(),
            None => {
                proof {
                    reveal_strlit("");
                }
                ""
            },
        }
    }

    /// Whether this describes a root rule.
    pub fn is_root(&self) -> (r: bool)
        ensures
            r == (self.maybe_sub_rule is None),
    {
        self.maybe_sub_rule.is_none()
    }
}

/// Every capture node found by [`name_matches`] in a well-formed expression
/// is well-formed.
pub proof fn lemma_name_matches_wf(re: Regex, first: Seq<char>, rest: Seq<Seq<char>>, bound: nat)
    requires
        re.wf(),
    ensures
        forall|k: int|
            0 <= k < name_matches(re, first, rest, bound).len() ==> (#[trigger] name_matches(
                re,
                first,
                rest,
                bound,
            )[k]).wf(),
    decreases re,
{
    let found = name_matches(re, first, rest, bound);
    match re {
        Regex::Capture(sub_rule) => {
            if sub_rule.name@ == first && rest.len() > 0 {
                lemma_name_matches_wf(sub_rule.regex, rest[0], rest.drop_first(), bound);
                assert(found == name_matches(sub_rule.regex, rest[0], rest.drop_first(), bound));
            } else if sub_rule.name@ == first && sub_rule.id < bound {
                assert(found =~= seq![re]);
                assert(found[0].wf());
            } else {
                assert(found =~= Seq::<Regex>::empty());
            }
        },
        Regex::KleeneClosure(item) => {
            lemma_name_matches_wf(*item, first, rest, bound);
            assert(found == name_matches(*item, first, rest, bound));
        },
        Regex::KleenePlus(item) => {
            lemma_name_matches_wf(*item, first, rest, bound);
            assert(found == name_matches(*item, first, rest, bound));
        },
        Regex::BoundedRepetition { item, .. } => {
            lemma_name_matches_wf(*item, first, rest, bound);
            assert(found == name_matches(*item, first, rest, bound));
        },
        Regex::Placeholder { item, .. } => {
            lemma_name_matches_wf(*item, first, rest, bound);
            assert(found == name_matches(*item, first, rest, bound));
        },
        Regex::Sequence(items) => {
            assert(decreases_to!(re => items));
            lemma_name_matches_of_items_wf(items@, first, rest, bound);
            assert(found == name_matches_of_items(items@, first, rest, bound));
        },
        Regex::Alternation(items) => {
            assert(decreases_to!(re => items));
            lemma_name_matches_of_items_wf(items@, first, rest, bound);
            assert(found == name_matches_of_items(items@, first, rest, bound));
        },
        _ => {
            assert(found =~= Seq::<Regex>::empty());
        },
    }
    assert forall|k: int| 0 <= k < found.len() implies (#[trigger] found[k]).wf() by {
    }
}

pub proof fn lemma_name_matches_of_items_wf(items: Seq<Regex>, first: Seq<char>, rest: Seq<Seq<char>>, bound: nat)
    requires
        forall|i: int| 0 <= i < items.len() ==> (#[trigger] items[i]).wf(),
    ensures
        forall|k: int|
            0 <= k < name_matches_of_items(items, first, rest, bound).len() ==> (
            #[trigger] name_matches_of_items(items, first, rest, bound)[k]).wf(),
    decreases items,
{
    if items.len() > 0 {
        let init = items.subrange(0, items.len() - 1);
        lemma_name_matches_of_items_wf(init, first, rest, bound);
        lemma_name_matches_wf(items[items.len() - 1], first, rest, bound);
        let a = name_matches_of_items(init, first, rest, bound);
        let b = name_matches(items[items.len() - 1], first, rest, bound);
        assert forall|k: int| 0 <= k < (a + b).len() implies (#[trigger] (a + b)[k]).wf() by {
            if k >= a.len() {
                assert((a + b)[k] == b[k - a.len()]);
            }
        }
    }
}

/// `m` is a capture whose id is below `bound`.
pub open spec fn capture_below(m: Regex, bound: nat) -> bool {
    m is Capture && m->Capture_0.id < bound
}

/// Every node found by [`name_matches`] is a capture whose id is below the bound.
pub proof fn lemma_name_matches_ids(re: Regex, first: Seq<char>, rest: Seq<Seq<char>>, bound: nat)
    ensures
        forall|k: int|
            0 <= k < name_matches(re, first, rest, bound).len() ==> capture_below(
                #[trigger] name_matches(re, first, rest, bound)[k],
                bound,
            ),
    decreases re,
{
    let found = name_matches(re, first, rest, bound);
    match re {
        Regex::Capture(sub_rule) => {
            if sub_rule.name@ == first && rest.len() > 0 {
                lemma_name_matches_ids(sub_rule.regex, rest[0], rest.drop_first(), bound);
                assert(found == name_matches(sub_rule.regex, rest[0], rest.drop_first(), bound));
            } else if sub_rule.name@ == first && sub_rule.id < bound {
                assert(found =~= seq![re]);
                assert(found[0] == re);
            } else {
                assert(found =~= Seq::<Regex>::empty());
            }
        },
        Regex::KleeneClosure(item) => {
            lemma_name_matches_ids(*item, first, rest, bound);
            assert(found == name_matches(*item, first, rest, bound));
        },
        Regex::KleenePlus(item) => {
            lemma_name_matches_ids(*item, first, rest, bound);
            assert(found == name_matches(*item, first, rest, bound));
        },
        Regex::BoundedRepetition { item, .. } => {
            lemma_name_matches_ids(*item, first, rest, bound);
            assert(found == name_matches(*item, first, rest, bound));
        },
        Regex::Placeholder { item, .. } => {
            lemma_name_matches_ids(*item, first, rest, bound);
            assert(found == name_matches(*item, first, rest, bound));
        },
        Regex::Sequence(items) => {
            assert(decreases_to!(re => items));
            lemma_name_matches_of_items_ids(items@, first, rest, bound);
            assert(found == name_matches_of_items(items@, first, rest, bound));
        },
        Regex::Alternation(items) => {
            assert(decreases_to!(re => items));
            lemma_name_matches_of_items_ids(items@, first, rest, bound);
            assert(found == name_matches_of_items(items@, first, rest, bound));
        },
        _ => {
            assert(found =~= Seq::<Regex>::empty());
        },
    }
    assert forall|k: int| 0 <= k < found.len() implies capture_below(#[trigger] found[k], bound) by {
    }
}

pub proof fn lemma_name_matches_of_items_ids(items: Seq<Regex>, first: Seq<char>, rest: Seq<Seq<char>>, bound: nat)
    ensures
        forall|k: int|
            0 <= k < name_matches_of_items(items, first, rest, bound).len() ==> capture_below(
                #[trigger] name_matches_of_items(items, first, rest, bound)[k],
                bound,
            ),
    decreases items,
{
    if items.len() > 0 {
        let init = items.subrange(0, items.len() - 1);
        lemma_name_matches_of_items_ids(init, first, rest, bound);
        lemma_name_matches_ids(items[items.len() - 1], first, rest, bound);
        let a = name_matches_of_items(init, first, rest, bound);
        let b = name_matches(items[items.len() - 1], first, rest, bound);
        assert forall|k: int| 0 <= k < (a + b).len() implies capture_below(#[trigger] (a + b)[k], bound) by {
            if k >= a.len() {
                assert((a + b)[k] == b[k - a.len()]);
            }
        }
    }
}

} // verus!
