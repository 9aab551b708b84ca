//! Splitting log shapes (`text %rule% text`) and dotted rule names.

use vstd::prelude::*;

use crate::text::push_char;
use crate::text::string_of;

verus! {

/// A piece of a log shape: static text, or the name of a rule.
#[derive(Debug, Clone, PartialEq, Eq)]
pub enum LogShapeFragment {
    Text(String),
    Rule(String),
}

/// Whether a fragment names a rule, and its characters.
pub open spec fn fragment_view(f: LogShapeFragment) -> (bool, Seq<char>) {
    match f {
        LogShapeFragment::Text(t) => (false, t@),
        LogShapeFragment::Rule(n) => (true, n@),
    }
}

/// The state of a left-to-right scan of a log shape.
pub struct ShapeScan {
    /// The fragments completed so far.
    pub done: Seq<(bool, Seq<char>)>,
    /// Static text not yet emitted.
    pub text: Seq<char>,
    /// 0: in text; 1: just after a `%` in text; 2: inside a rule name.
    pub mode: int,
    /// The rule name read so far (mode 2).
    pub rule: Seq<char>,
}

/// `done` followed by `text`, unless `text` is empty.
pub open spec fn with_text(done: Seq<(bool, Seq<char>)>, text: Seq<char>) -> Seq<(bool, Seq<char>)> {
    if text.len() == 0 {
        done
    } else {
        done.push((false, text))
    }
}

/// One step of the scan: `%%` in text is a literal `%`; `%name%` is a rule.
pub open spec fn scan_step(st: ShapeScan, c: char) -> ShapeScan {
    if st.mode == 0 {
        if c == '%' {
            ShapeScan { mode: 1, ..st }
        } else {
            ShapeScan { text: st.text.push(c), ..st }
        }
    } else if st.mode == 1 {
        if c == '%' {
            ShapeScan { text: st.text.push('%'), mode: 0, ..st }
        } else {
            ShapeScan { mode: 2, rule: seq![c], ..st }
        }
    } else {
        if c == '%' {
            ShapeScan {
                done: with_text(st.done, st.text).push((true, st.rule)),
                text: Seq::empty(),
                mode: 0,
                rule: Seq::empty(),
            }
        } else {
            ShapeScan { rule: st.rule.push(c), ..st }
        }
    }
}

/// The scan state after reading all of `s`.
pub open spec fn scan_shape(s: Seq<char>) -> ShapeScan
    decreases s.len(),
{
    if s.len() == 0 {
        ShapeScan { done: Seq::empty(), text: Seq::empty(), mode: 0, rule: Seq::empty() }
    } else {
        scan_step(scan_shape(s.drop_last()), s.last())
    }
}

/// The fragments of the log shape `s`. Text fragments are never empty, and an
/// unterminated `%` or `%name` at the end is static text.
pub open spec fn shape_fragments(s: Seq<char>) -> Seq<(bool, Seq<char>)> {
    let st = scan_shape(s);
    if st.mode == 0 {
        with_text(st.done, st.text)
    } else if st.mode == 1 {
        with_text(st.done, st.text.push('%'))
    } else {
        with_text(st.done, st.text.push('%') + st.rule)
    }
}

/// The parts of `s` between dots (one part when there is no dot).
pub open spec fn split_dots(s: Seq<char>) -> Seq<Seq<char>>
    decreases s.len(),
{
    if s.len() == 0 {
        seq![Seq::empty()]
    } else {
        let parts = split_dots(s.drop_last());
        if s.last() == '.' {
            parts.push(Seq::empty())
        } else {
            parts.update(parts.len() - 1, parts.last().push(s.last()))
        }
    }
}

pub proof fn lemma_split_dots_nonempty(s: Seq<char>)
    ensures
        split_dots(s).len() >= 1,
    decreases s.len(),
{
    if s.len() > 0 {
        lemma_split_dots_nonempty(s.drop_last());
    }
}

/// Splits `s` at each dot.
pub fn split_on_dots(s: &Vec<char>) -> (r: Vec<Vec<char>>)
    ensures
        r@.len() == split_dots(s@).len(),
        forall|k: int| 0 <= k < r@.len() ==> (#[trigger] r@[k])@ == split_dots(s@)[k],
{
    let mut parts: Vec<Vec<char>> = Vec::new();
    parts.push(Vec::new());
    let mut i: usize = 0;
    proof {
        assert(s@.subrange(0, 0) =~= Seq::<char>::empty());
    }
    while i < s.len()
        invariant
            0 <= i <= s.len(),
            parts@.len() == split_dots(s@.subrange(0, i as int)).len(),
            parts@.len() >= 1,
            forall|k: int| 0 <= k < parts@.len() ==> (#[trigger] parts@[k])@ == split_dots(s@.subrange(0, i as int))[k],
        decreases s.len() - i,
    {
        proof {
            let next = s@.subrange(0, i + 1);
            assert(next.drop_last() =~= s@.subrange(0, i as int));
            assert(next.last() == s@[i as int]);
        }
        if s[i] == '.' {
            parts.push(Vec::new());
        } else {
            let last: usize = parts.len() - 1;
            let mut piece: Vec<char> = parts.remove(last);
            piece.push(s[i]);
            parts.push(piece);
        }
        proof {
            let next = s@.subrange(0, i + 1);
            let prev = split_dots(s@.subrange(0, i as int));
            assert forall|k: int| 0 <= k < parts@.len() implies (#[trigger] parts@[k])@ == split_dots(next)[k] by {
                if s@[i as int] != '.' && k == parts@.len() - 1 {
                    assert(split_dots(next)[k] == prev.last().push(s@[i as int]));
                }
            }
        }
        i = i + 1;
    }
    proof {
        assert(s@.subrange(0, s@.len() as int) =~= s@);
    }
    parts
}

/// The exec counterpart of [`ShapeScan`].
struct Scanner {
    done: Vec<LogShapeFragment>,
    text: Vec<char>,
    mode: u8,
    rule: Vec<char>,
}

impl Scanner {
    spec fn matches(self, st: ShapeScan) -> bool {
        &&& self.done@.map_values(|f: LogShapeFragment| fragment_view(f)) == st.done
        &&& self.text@ == st.text
        &&& self.mode as int == st.mode
        &&& self.rule@ == st.rule
        &&& 0 <= st.mode <= 2
    }
}

/// Appends `text` to `done` as a fragment, unless it is empty.
fn flush_text(done: &mut Vec<LogShapeFragment>, text: &Vec<char>)
    ensures
        final(done)@.map_values(|f: LogShapeFragment| fragment_view(f)) == with_text(
            old(done)@.map_values(|f: LogShapeFragment| fragment_view(f)),
            text@,
        ),
{
    if text.len() > 0 {
        let ghost before = done@;
        done.push(LogShapeFragment::Text(string_of(text.as_slice())));
        proof {
            assert(done@.map_values(|f: LogShapeFragment| fragment_view(f)) =~= before.map_values(
                |f: LogShapeFragment| fragment_view(f),
            ).push((false, text@)));
        }
    }
}

/// Splits a log shape into static text and rule names; see [`shape_fragments`].
pub fn split_shape(shape: &str) -> (r: Vec<LogShapeFragment>)
    ensures
        r@.map_values(|f: LogShapeFragment| fragment_view(f)) == shape_fragments(shape@),
{
    let chars: Vec<char> = crate::text::chars_of(shape);
    let mut sc: Scanner = Scanner { done: Vec::new(), text: Vec::new(), mode: 0, rule: Vec::new() };
    let mut i: usize = 0;
    proof {
        assert(chars@.subrange(0, 0) =~= Seq::<char>::empty());
        assert(sc.done@.map_values(|f: LogShapeFragment| fragment_view(f)) =~= Seq::<(bool, Seq<char>)>::empty());
    }
    while i < chars.len()
        invariant
            chars@ == shape@,
            0 <= i <= chars.len(),
            sc.matches(scan_shape(chars@.subrange(0, i as int))),
        decreases chars.len() - i,
    {
        let c: char = chars[i];
        let ghost st = scan_shape(chars@.subrange(0, i as int));
        proof {
            let next = chars@.subrange(0, i + 1);
            assert(next.drop_last() =~= chars@.subrange(0, i as int));
            assert(next.last() == c);
        }
        if sc.mode == 0 {
            if c == '%' {
                sc.mode = 1;
            } else {
                sc.text.push(c);
            }
        } else if sc.mode == 1 {
            if c == '%' {
                sc.text.push('%');
                sc.mode = 0;
            } else {
                sc.mode = 2;
                sc.rule = Vec::new();
                sc.rule.push(c);
                proof {
                    assert(sc.rule@ =~= seq![c]);
                }
            }
        } else {
            if c == '%' {
                flush_text(&mut sc.done, &sc.text);
                let ghost before = sc.done@;
                sc.done.push(LogShapeFragment::Rule(string_of(sc.rule.as_slice())));
                proof {
                    assert(sc.done@.map_values(|f: LogShapeFragment| fragment_view(f)) =~= before.map_values(
                        |f: LogShapeFragment| fragment_view(f),
                    ).push((true, st.rule)));
                }
                sc.text = Vec::new();
                sc.rule = Vec::new();
                sc.mode = 0;
                proof {
                    assert(sc.text@ =~= Seq::<char>::empty());
                    assert(sc.rule@ =~= Seq::<char>::empty());
                }
            } else {
                sc.rule.push(c);
            }
        }
        i = i + 1;
    }
    proof {
        assert(chars@.subrange(0, chars@.len() as int) =~= chars@);
    }
    let ghost st = scan_shape(shape@);
    let ghost final_text: Seq<char> = if st.mode == 0 {
        st.text
    } else if st.mode == 1 {
        st.text.push('%')
    } else {
        st.text.push('%') + st.rule
    };
    if sc.mode == 1 {
        sc.text.push('%');
    } else if sc.mode == 2 {
        sc.text.push('%');
        let mut k: usize = 0;
        let ghost base = sc.text@;
        let ghost done_before = sc.done@;
        while k < sc.rule.len()
            invariant
                0 <= k <= sc.rule.len(),
                sc.rule@ == st.rule,
                sc.done@ == done_before,
                sc.mode == 2,
                sc.text@ == base + sc.rule@.subrange(0, k as int),
            decreases sc.rule.len() - k,
        {
            let c: char = sc.rule[k];
            sc.text.push(c);
            proof {
                assert(sc.rule@.subrange(0, k + 1) =~= sc.rule@.subrange(0, k as int).push(c));
            }
            k = k + 1;
        }
        proof {
            assert(sc.rule@.subrange(0, sc.rule@.len() as int) =~= sc.rule@);
        }
    }
    assert(sc.text@ == final_text);
    flush_text(&mut sc.done, &sc.text);
    sc.done
}

} // verus!
