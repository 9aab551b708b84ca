//! Search queries: strings with `*` wildcards, and their interpretations as
//! sequences of static text and captures.

use vstd::prelude::*;

use crate::parsing_spec::RuleIdx;
use crate::parsing_spec::SubRule;
use crate::text::push_char;
use crate::regex::Regex;

verus! {

/// A character of a query: a literal, or `*` matching any text.
#[derive(Debug, Clone, Copy, PartialEq, Eq, Structural, PartialOrd, Ord)]
pub enum SymbolicChar {
    Literal(char),
    GlobStar,
}

/// A parsed query.
#[derive(Debug)]
pub struct SearchString {
    symbols: Vec<SymbolicChar>,
}

/// A rejected query: a backslash not followed by `*` or `\`, with the text
/// before and after the offending character.
#[derive(Debug)]
pub enum SearchStringError<'input> {
    InvalidEscape { before: &'input str, after: &'input str },
}

/// One way of reading a query against a log shape.
#[derive(Debug, Clone, PartialEq, Eq)]
pub struct Interpretation {
    pub sub_queries: Vec<SubQuery>,
}

/// A piece of an interpretation: static text, or a value searched for in a
/// (sub-)rule.
#[derive(Debug, Clone, PartialEq, Eq)]
pub struct SubQuery {
    pub rule_idx: Option<RuleIdx>,
    pub fully_qualified_name: String,
    pub symbolic_value: Vec<SymbolicChar>,
    pub string_value: String,
}

/// The state of a left-to-right parse of a query: the symbols so far and
/// whether the last character was an unconsumed backslash, or the position
/// of the first bad escape.
pub open spec fn parse_state(s: Seq<char>) -> Result<(Seq<SymbolicChar>, bool), int>
    decreases s.len(),
{
    if s.len() == 0 {
        Ok((Seq::empty(), false))
    } else {
        let c = s.last();
        match parse_state(s.drop_last()) {
            Err(i) => Err(i),
            Ok((symbols, escaped)) => if c == '*' || c == '\\' {
                if escaped {
                    Ok((symbols.push(SymbolicChar::Literal(c)), false))
                } else if c == '*' {
                    Ok((symbols.push(SymbolicChar::GlobStar), false))
                } else {
                    Ok((symbols, true))
                }
            } else if escaped {
                Err(s.len() - 1)
            } else {
                Ok((symbols.push(SymbolicChar::Literal(c)), false))
            },
        }
    }
}

/// The symbols of a query, or the position at which it is split in the
/// error: `\*` and `\\` are literal, `*` is a wildcard, and any other
/// character after a backslash, or a trailing backslash, is an error.
pub open spec fn parse_query(s: Seq<char>) -> Result<Seq<SymbolicChar>, int> {
    match parse_state(s) {
        Err(i) => Err(i),
        Ok((symbols, escaped)) => if escaped {
            Err(s.len() as int)
        } else {
            Ok(symbols)
        },
    }
}

impl SymbolicChar {
    pub fn is_wildcard(&self) -> (r: bool)
        ensures
            r == (*self == SymbolicChar::GlobStar),
    {
        match self {
            SymbolicChar::GlobStar => true,
            SymbolicChar::Literal(_) => false,
        }
    }

    /// The expression matching this symbol: the character, or any text.
    pub fn to_regex(&self) -> (r: Regex)
        ensures
            r.wf(),
            match *self {
                SymbolicChar::Literal(c) => r == Regex::Literal(c),
                SymbolicChar::GlobStar => r == Regex::KleeneClosure(Box::new(Regex::AnyChar)),
            },
    {
        match self {
            SymbolicChar::Literal(ch) => crate::regex::literal(*ch),
            SymbolicChar::GlobStar => {
                let any: Regex = Regex::AnyChar;
                assert(any.wf());
                Regex::KleeneClosure(Box::new(any))
            },
        }
    }
}

impl SearchString {
    /// The symbols.
    pub closed spec fn symbols(&self) -> Seq<SymbolicChar> {
        self.symbols@
    }

    /// Parses a query; see [`parse_query`].
    pub fn parse(input: &str) -> (r: Result<SearchString, SearchStringError<'_>>)
        ensures
            match parse_query(input@) {
                Ok(symbols) => r matches Ok(q) && q.symbols() == symbols,
                Err(i) => r matches Err(SearchStringError::InvalidEscape { before, after })
                    && 0 <= i <= input@.len() && before@ == input@.subrange(0, i) && after@ == input@.subrange(
                    i,
                    input@.len() as int,
                ),
            },
    {
        let chars: Vec<char> = crate::text::chars_of(input);
        let n: usize = chars.len();
        let mut symbols: Vec<SymbolicChar> = Vec::new();
        let mut last_was_escape: bool = false;
        let mut i: usize = 0;
        proof {
            assert(chars@.subrange(0, 0) =~= Seq::<char>::empty());
        }
        while i < n
            invariant
                0 <= i <= n,
                n == chars@.len(),
                chars@ == input@,
                parse_state(chars@.subrange(0, i as int)) == Ok::<(Seq<SymbolicChar>, bool), int>(
                    (symbols@, last_was_escape),
                ),
            decreases n - i,
        {
            let ch: char = chars[i];
            proof {
                let next = chars@.subrange(0, i + 1);
                assert(next.drop_last() =~= chars@.subrange(0, i as int));
                assert(next.last() == ch);
            }
            if ch == '*' || ch == '\\' {
                if last_was_escape {
                    symbols.push(SymbolicChar::Literal(ch));
                    last_was_escape = false;
                } else if ch == '*' {
                    symbols.push(SymbolicChar::GlobStar);
                } else {
                    last_was_escape = true;
                }
            } else if last_was_escape {
                proof {
                    lemma_parse_error_sticks(chars@, i as int + 1);
                }
                let before: &str = input.substring_char(0, i);
                let after: &str = input.substring_char(i, n);
                return Err(SearchStringError::InvalidEscape { before, after });
            } else {
                symbols.push(SymbolicChar::Literal(ch));
            }
            i = i + 1;
        }
        proof {
            assert(chars@.subrange(0, n as int) =~= chars@);
        }
        if last_was_escape {
            let after: &str = input.substring_char(n, n);
            return Err(SearchStringError::InvalidEscape { before: input, after });
        }
        Ok(SearchString { symbols })
    }

    /// The symbols.
    pub fn as_slice(&self) -> (r: &[SymbolicChar])
        ensures
            r@ == self.symbols(),
    {
        self.symbols.as_slice()
    }
}

/// Once the parse of a prefix fails, the parse of the whole fails at the same
/// position.
proof fn lemma_parse_error_sticks(s: Seq<char>, k: int)
    requires
        0 <= k <= s.len(),
        parse_state(s.subrange(0, k)) is Err,
    ensures
        parse_state(s) == parse_state(s.subrange(0, k)),
    decreases s.len() - k,
{
    if k < s.len() {
        let next = s.subrange(0, k + 1);
        assert(next.drop_last() =~= s.subrange(0, k));
        lemma_parse_error_sticks(s, k + 1);
    } else {
        assert(s.subrange(0, k) =~= s);
    }
}

/// How a symbol is written: `*` for the wildcard, and a backslash before a
/// literal `*` or `\`.
pub open spec fn symbol_text(c: SymbolicChar) -> Seq<char> {
    match c {
        SymbolicChar::GlobStar => seq!['*'],
        SymbolicChar::Literal(ch) => if ch == '*' || ch == '\\' {
            seq!['\\', ch]
        } else {
            seq![ch]
        },
    }
}

/// How a list of symbols is written.
pub open spec fn symbols_text(s: Seq<SymbolicChar>) -> Seq<char>
    decreases s.len(),
{
    if s.len() == 0 {
        Seq::empty()
    } else {
        symbols_text(s.drop_last()) + symbol_text(s.last())
    }
}

proof fn lemma_symbols_text_one(c: SymbolicChar)
    ensures
        symbols_text(seq![c]) == symbol_text(c),
{
    let s = seq![c];
    assert(symbols_text(Seq::<SymbolicChar>::empty()) == Seq::<char>::empty());
    assert(s.drop_last() =~= Seq::<SymbolicChar>::empty());
    assert(s.last() == c);
    assert(Seq::<char>::empty() + symbol_text(c) =~= symbol_text(c));
}

/// The text of symbols with one more at the end.
proof fn lemma_symbols_text_push(symbols: Seq<SymbolicChar>, sym: SymbolicChar)
    ensures
        symbols_text(symbols.push(sym)) == symbols_text(symbols) + symbol_text(sym),
{
    assert(symbols.push(sym).drop_last() =~= symbols);
}

/// What a query read so far is written as: its symbols, then the pending
/// backslash if any.
proof fn lemma_parse_state_text(s: Seq<char>)
    ensures
        parse_state(s) matches Ok((symbols, escaped)) ==> s == symbols_text(symbols) + (if escaped {
            seq!['\\']
        } else {
            Seq::empty()
        }),
    decreases s.len(),
{
    if s.len() > 0 {
        let t = s.drop_last();
        let c = s.last();
        lemma_parse_state_text(t);
        assert(s =~= t.push(c));
        match parse_state(t) {
            Ok((prev, escaped)) => {
                let before = symbols_text(prev);
                if c == '*' || c == '\\' {
                    if escaped {
                        lemma_symbols_text_push(prev, SymbolicChar::Literal(c));
                        assert(s =~= before + seq!['\\', c] + Seq::<char>::empty());
                    } else if c == '*' {
                        lemma_symbols_text_push(prev, SymbolicChar::GlobStar);
                        assert(s =~= before + seq!['*'] + Seq::<char>::empty());
                    } else {
                        assert(s =~= before + seq!['\\']);
                    }
                } else if !escaped {
                    lemma_symbols_text_push(prev, SymbolicChar::Literal(c));
                    assert(s =~= before + seq![c] + Seq::<char>::empty());
                }
            },
            Err(_) => {},
        }
    } else {
        assert(symbols_text(Seq::<SymbolicChar>::empty()) + Seq::<char>::empty() =~= s);
    }
}

/// Writing a parsed query gives back the query.
pub proof fn lemma_render_parsed(s: Seq<char>)
    ensures
        parse_query(s) matches Ok(symbols) ==> symbols_text(symbols) == s,
{
    lemma_parse_state_text(s);
    if let Ok((symbols, escaped)) = parse_state(s) {
        if !escaped {
            assert(symbols_text(symbols) + Seq::<char>::empty() =~= symbols_text(symbols));
        }
    }
}

/// Parsing the text of some symbols gives back the symbols.
pub proof fn lemma_parse_rendered(symbols: Seq<SymbolicChar>)
    ensures
        parse_state(symbols_text(symbols)) == Ok::<(Seq<SymbolicChar>, bool), int>((symbols, false)),
        parse_query(symbols_text(symbols)) == Ok::<Seq<SymbolicChar>, int>(symbols),
    decreases symbols.len(),
{
    if symbols.len() == 0 {
        assert(symbols_text(symbols) == Seq::<char>::empty());
        assert(symbols =~= Seq::<SymbolicChar>::empty());
    } else {
        let rest = symbols.drop_last();
        let c = symbols.last();
        lemma_parse_rendered(rest);
        let t = symbols_text(rest);
        assert(symbols_text(symbols) == t + symbol_text(c));
        assert(rest.push(c) =~= symbols);
        match c {
            SymbolicChar::GlobStar => {
                let u = t + seq!['*'];
                assert(u.drop_last() =~= t);
            },
            SymbolicChar::Literal(ch) => {
                if ch == '*' || ch == '\\' {
                    let u1 = t.push('\\');
                    let u2 = t + seq!['\\', ch];
                    assert(u1.drop_last() =~= t);
                    assert(u2.drop_last() =~= u1);
                    assert(parse_state(u1) == Ok::<(Seq<SymbolicChar>, bool), int>((rest, true)));
                } else {
                    let u = t + seq![ch];
                    assert(u.drop_last() =~= t);
                }
            },
        }
    }
}

/// Writes the symbols, escaping literal `*` and `\`.
pub fn render_symbols(symbols: &Vec<SymbolicChar>) -> (r: String)
    ensures
        r@ == symbols_text(symbols@),
{
    let mut out: String = String::new();
    let mut i: usize = 0;
    while i < symbols.len()
        invariant
            0 <= i <= symbols@.len(),
            out@ == symbols_text(symbols@.subrange(0, i as int)),
        decreases symbols.len() - i,
    {
        proof {
            let next = symbols@.subrange(0, i + 1);
            assert(next.drop_last() =~= symbols@.subrange(0, i as int));
        }
        match symbols[i] {
            SymbolicChar::GlobStar => {
                push_char(&mut out, '*');
            },
            SymbolicChar::Literal(ch) => {
                if ch == '*' || ch == '\\' {
                    push_char(&mut out, '\\');
                }
                push_char(&mut out, ch);
            },
        }
        proof {
            let next = symbols@.subrange(0, i + 1);
            assert(out@ =~= symbols_text(next));
        }
        i = i + 1;
    }
    proof {
        assert(symbols@.subrange(0, symbols@.len() as int) =~= symbols@);
    }
    out
}

impl SubQuery {
    /// Static text with the given symbols.
    pub fn new_static_text(symbolic_value: Vec<SymbolicChar>) -> (r: SubQuery)
        ensures
            r.rule_idx is None,
            r.fully_qualified_name@.len() == 0,
            r.symbolic_value@ == symbolic_value@,
            r.string_value@ == symbols_text(symbolic_value@),
    {
        let string_value: String = render_symbols(&symbolic_value);
        SubQuery { rule_idx: None, fully_qualified_name: String::new(), symbolic_value, string_value }
    }

    /// A value searched for in `sub_rule`.
    pub fn new(sub_rule: &SubRule, symbolic_value: Vec<SymbolicChar>) -> (r: SubQuery)
        requires
            sub_rule.fully_qualified_name@.len() > 0,
        ensures
            r.rule_idx == Some(sub_rule.root_rule_idx),
            r.fully_qualified_name@ == sub_rule.fully_qualified_name@,
            r.symbolic_value@ == symbolic_value@,
            r.string_value@ == symbols_text(symbolic_value@),
    {
        let string_value: String = render_symbols(&symbolic_value);
        SubQuery {
            rule_idx: Some(sub_rule.root_rule_idx),
            fully_qualified_name: sub_rule.fully_qualified_name.clone(),
            symbolic_value,
            string_value,
        }
    }

    /// Whether this is static text rather than a capture.
    pub fn is_static_text(&self) -> (r: bool)
        ensures
            r == (self.rule_idx is None),
    {
        self.rule_idx.is_none()
    }

    /// Puts a wildcard at each end that lacks one; an empty value (a capture
    /// pinned to the empty string) is left as it is.
    pub fn surround_with_wildcards(&mut self)
        ensures
            final(self).rule_idx == old(self).rule_idx,
            final(self).fully_qualified_name == old(self).fully_qualified_name,
            old(self).symbolic_value@.len() == 0 ==> final(self).symbolic_value@ == old(self).symbolic_value@
                && final(self).string_value@ == old(self).string_value@,
            old(self).symbolic_value@.len() > 0 ==> {
                let front = if old(self).symbolic_value@[0] == SymbolicChar::GlobStar {
                    Seq::<SymbolicChar>::empty()
                } else {
                    seq![SymbolicChar::GlobStar]
                };
                let back = if old(self).symbolic_value@.last() == SymbolicChar::GlobStar {
                    Seq::<SymbolicChar>::empty()
                } else {
                    seq![SymbolicChar::GlobStar]
                };
                &&& final(self).symbolic_value@ == front + old(self).symbolic_value@ + back
                &&& final(self).string_value@ == symbols_text(front) + old(self).string_value@ + symbols_text(
                    back,
                )
            },
    {
        if self.symbolic_value.len() == 0 {
            return;
        }
        let ghost before = self.symbolic_value@;
        let ghost text = self.string_value@;
        let ghost front = if before[0] == SymbolicChar::GlobStar {
            Seq::<SymbolicChar>::empty()
        } else {
            seq![SymbolicChar::GlobStar]
        };
        let ghost back = if before.last() == SymbolicChar::GlobStar {
            Seq::<SymbolicChar>::empty()
        } else {
            seq![SymbolicChar::GlobStar]
        };
        proof {
            lemma_symbols_text_one(SymbolicChar::GlobStar);
            assert(symbols_text(Seq::<SymbolicChar>::empty()) =~= Seq::<char>::empty());
            assert(symbol_text(SymbolicChar::GlobStar) =~= seq!['*']);
        }
        if self.symbolic_value[0] != SymbolicChar::GlobStar {
            self.symbolic_value.insert(0, SymbolicChar::GlobStar);
            let widened: String = crate::text::concat("*", self.string_value.as_str());
            self.string_value = widened;
            proof {
                reveal_strlit("*");
                assert(self.string_value@ =~= seq!['*'] + text);
                assert(self.symbolic_value@ =~= seq![SymbolicChar::GlobStar] + before);
            }
        } else {
            proof {
                assert(self.symbolic_value@ =~= Seq::<SymbolicChar>::empty() + before);
                assert(self.string_value@ =~= symbols_text(Seq::<SymbolicChar>::empty()) + text);
            }
        }
        let ghost middle = self.symbolic_value@;
        let ghost middle_text = self.string_value@;
        assert(middle_text =~= symbols_text(front) + text);
        let last: usize = self.symbolic_value.len() - 1;
        if self.symbolic_value[last] != SymbolicChar::GlobStar {
            self.symbolic_value.push(SymbolicChar::GlobStar);
            push_char(&mut self.string_value, '*');
            proof {
                assert(before.last() == middle.last());
                assert(self.string_value@ =~= middle_text + symbols_text(back));
                assert(self.symbolic_value@ =~= middle + back);
            }
        } else {
            proof {
                assert(before.last() == middle.last());
                assert(self.symbolic_value@ =~= middle + Seq::<SymbolicChar>::empty());
                assert(self.string_value@ =~= middle_text + symbols_text(Seq::<SymbolicChar>::empty()));
            }
        }
        proof {
            assert(self.symbolic_value@ =~= front + before + back);
            assert(self.string_value@ =~= symbols_text(front) + text + symbols_text(back));
        }
    }
}

} // verus!
