//! The regex text parser.
//!
//! The grammar, right-associative at `|` and at concatenation, `*` binding
//! tightest:
//!
//! ```text
//! choose    := concat ( '|' choose )?
//! concat    := repeat concat?      (the empty alternative is allowed)
//! repeat    := atom ('*')?
//! atom      := '(' choose ')' | letter
//! ```
//!
//! Each parsing level has a specification function over the remaining
//! characters, and the executable parsers return exactly what those say;
//! `parse` itself succeeds exactly on the words of the grammar, rejecting
//! any residue.

use vstd::prelude::*;
use crate::pattern::{Pattern, pattern_string, bracket_string, spec_precedence};
use crate::text::str_to_chars;

verus! {

/// A character a literal may hold: an ASCII letter.
pub open spec fn is_regex_letter(c: char) -> bool {
    (97 <= c as u32 && c as u32 <= 122) || (65 <= c as u32 && c as u32 <= 90)
}

pub open spec fn parse_literal_spec(s: Seq<char>) -> Option<(Pattern, Seq<char>)> {
    if s.len() > 0 && is_regex_letter(s[0]) {
        Some((Pattern::Literal(s[0]), s.drop_first()))
    } else {
        None
    }
}

pub open spec fn parse_empty_spec(s: Seq<char>) -> Option<(Pattern, Seq<char>)> {
    Some((Pattern::Empty, s))
}

pub open spec fn parse_brackets_spec(s: Seq<char>) -> Option<(Pattern, Seq<char>)>
    decreases s.len(), 0int,
{
    if s.len() > 0 && s[0] == '(' {
        match parse_choose_spec(s.drop_first()) {
            Some((p, rest)) => if rest.len() > 0 && rest[0] == ')' {
                Some((p, rest.drop_first()))
            } else {
                None
            },
            None => None,
        }
    } else {
        parse_literal_spec(s)
    }
}

pub open spec fn parse_repeat_spec(s: Seq<char>) -> Option<(Pattern, Seq<char>)>
    decreases s.len(), 1int,
{
    match parse_brackets_spec(s) {
        Some((p, rest)) => if rest.len() > 0 && rest[0] == '*' {
            Some((Pattern::Repeat(Box::new(p)), rest.drop_first()))
        } else {
            Some((p, rest))
        },
        None => None,
    }
}

pub open spec fn parse_concatnate_spec(s: Seq<char>) -> Option<(Pattern, Seq<char>)>
    decreases s.len(), 2int,
{
    match parse_repeat_spec(s) {
        Some((p, rest)) => if rest.len() < s.len() {
            match parse_concatnate_spec(rest) {
                Some((q, rest2)) => Some(
                    (Pattern::Concatnate { first: Box::new(p), second: Box::new(q) }, rest2),
                ),
                None => Some((p, rest)),
            }
        } else {
            // a repetition always consumes characters; never reached
            Some((p, rest))
        },
        None => None,
    }
}

pub open spec fn parse_concatnate_or_empty_spec(s: Seq<char>) -> Option<(Pattern, Seq<char>)>
    decreases s.len(), 3int,
{
    match parse_concatnate_spec(s) {
        Some(r) => Some(r),
        None => parse_empty_spec(s),
    }
}

pub open spec fn parse_choose_spec(s: Seq<char>) -> Option<(Pattern, Seq<char>)>
    decreases s.len(), 4int,
{
    match parse_concatnate_or_empty_spec(s) {
        Some((p, rest)) => if rest.len() > 0 && rest[0] == '|' && rest.drop_first().len()
            < s.len() {
            match parse_choose_spec(rest.drop_first()) {
                Some((q, rest2)) => Some(
                    (Pattern::Choose { first: Box::new(p), second: Box::new(q) }, rest2),
                ),
                None => None,
            }
        } else {
            Some((p, rest))
        },
        None => None,
    }
}

/// What `parse` means: the whole input must be one `choose` production.
pub open spec fn spec_parse(s: Seq<char>) -> Option<Pattern> {
    match parse_choose_spec(s) {
        Some((p, rest)) => if rest.len() == 0 {
            Some(p)
        } else {
            None
        },
        None => None,
    }
}

/// The patterns whose printed text parses back to the same tree: literals
/// are letters, `|` and concatenation nest to the right as the parser
/// builds them, no empty pattern hides inside a concatenation or a
/// repetition, and no repetition applies directly to another.
pub open spec fn printable(p: Pattern) -> bool
    decreases p,
{
    match p {
        Pattern::Empty => true,
        Pattern::Literal(c) => is_regex_letter(c),
        Pattern::Concatnate { first, second } => printable(*first) && printable(*second) && !(
        *first matches Pattern::Empty) && !(*first matches Pattern::Concatnate { .. }) && !(
        *second matches Pattern::Empty),
        Pattern::Choose { first, second } => printable(*first) && printable(*second) && !(
        *first matches Pattern::Choose { .. }),
        Pattern::Repeat(inner) => printable(*inner) && !(*inner matches Pattern::Empty) && !(
        *inner matches Pattern::Repeat(_)),
    }
}

/// A measure on patterns for the round-trip induction.
pub open spec fn psize(p: Pattern) -> nat
    decreases p,
{
    match p {
        Pattern::Empty => 1,
        Pattern::Literal(_) => 1,
        Pattern::Concatnate { first, second } => 1 + psize(*first) + psize(*second),
        Pattern::Choose { first, second } => 1 + psize(*first) + psize(*second),
        Pattern::Repeat(inner) => 1 + psize(*inner),
    }
}

/// The order in which the parsing levels unwind on one and the same
/// pattern, which depends on the pattern's shape.
pub open spec fn rt_rank(level: int, p: Pattern) -> int {
    match p {
        Pattern::Concatnate { .. } => if level == 2 {
            0
        } else if level == 3 {
            1
        } else {
            2  // level 0
        },
        Pattern::Choose { .. } => if level == 3 {
            0
        } else if level == 0 {
            1
        } else if level == 1 {
            2
        } else {
            3  // level 2
        },
        _ => level,
    }
}

/// The printed text of an admissible subpattern starts with a letter or an
/// opening parenthesis, never with `*`, `|` or `)`.
proof fn lemma_first_char(p: Pattern, outer: u32)
    requires
        printable(p),
        !(p matches Pattern::Empty),
        outer == 1 || outer == 2,
    ensures
        bracket_string(p, outer).len() > 0,
        is_regex_letter(bracket_string(p, outer)[0]) || bracket_string(p, outer)[0] == '(',
    decreases p,
{
    match p {
        Pattern::Literal(c) => {},
        Pattern::Concatnate { first, second } => {
            if spec_precedence(p) < outer {
            } else {
                lemma_first_char(*first, 1);
                assert(pattern_string(p)[0] == bracket_string(*first, 1)[0]);
            }
        },
        Pattern::Choose { first, second } => {
            assert(spec_precedence(p) < outer);
        },
        Pattern::Repeat(inner) => {
            assert(spec_precedence(p) == 2);
            if spec_precedence(p) < outer {
            } else {
                lemma_first_char(*inner, 2);
                assert(pattern_string(p)[0] == bracket_string(*inner, 2)[0]);
            }
        },
        _ => {},
    }
}

/// The round trip at the `choose` level: the pattern's full text followed
/// by `rest` parses to exactly the pattern, leaving `rest`.
proof fn lemma_rt_choose(p: Pattern, rest: Seq<char>)
    requires
        printable(p),
        rest.len() == 0 || rest[0] == ')',
    ensures
        parse_choose_spec(pattern_string(p) + rest) == Some((p, rest)),
    decreases psize(p), rt_rank(3, p),
{
    match p {
        Pattern::Choose { first, second } => {
            let tail = seq!['|'] + bracket_string(*second, 0) + rest;
            assert(bracket_string(*first, 0) == pattern_string(*first));
            assert(bracket_string(*second, 0) == pattern_string(*second));
            assert(bracket_string(*first, 0) == bracket_string(*first, 1)) by {
                assert(spec_precedence(*first) >= 0);
            }
            lemma_rt_concat(*first, tail);
            assert(pattern_string(p) + rest =~= bracket_string(*first, 1) + tail);
            assert(parse_concatnate_or_empty_spec(pattern_string(p) + rest) == Some(
                (*first, tail),
            ));
            assert(tail[0] == '|');
            assert(tail.drop_first() =~= pattern_string(*second) + rest);
            lemma_rt_choose(*second, rest);
            assert(tail.drop_first().len() < (pattern_string(p) + rest).len());
            assert(parse_choose_spec(pattern_string(p) + rest) == Some((p, rest)));
        },
        _ => {
            assert(pattern_string(p) == bracket_string(p, 1)) by {
                assert(spec_precedence(p) >= 1);
            }
            lemma_rt_concat(p, rest);
            if rest.len() > 0 {
                assert(rest[0] != '|');
            }
            assert(parse_choose_spec(pattern_string(p) + rest) == Some((p, rest)));
        },
    }
}

/// The round trip at the `concat`-or-empty level, on the pattern's text
/// bracketed for a concatenation context.
proof fn lemma_rt_concat(p: Pattern, rest: Seq<char>)
    requires
        printable(p),
        rest.len() == 0 || rest[0] == ')' || rest[0] == '|',
    ensures
        parse_concatnate_or_empty_spec(bracket_string(p, 1) + rest) == Some((p, rest)),
    decreases psize(p), rt_rank(2, p),
{
    match p {
        Pattern::Empty => {
            assert(bracket_string(p, 1) + rest =~= rest);
            lemma_nothing_parses(rest);
            assert(parse_concatnate_or_empty_spec(rest) == Some((Pattern::Empty, rest)));
        },
        Pattern::Concatnate { first, second } => {
            assert(spec_precedence(p) == 1);
            assert(bracket_string(p, 1) == pattern_string(p));
            let tail = bracket_string(*second, 1) + rest;
            lemma_first_char(*second, 1);
            assert(tail[0] == bracket_string(*second, 1)[0]);
            lemma_rt_repeat(*first, tail);
            assert(pattern_string(p) + rest =~= bracket_string(*first, 1) + tail);
            assert(parse_repeat_spec(pattern_string(p) + rest) == Some((*first, tail)));
            lemma_rt_concat(*second, rest);
            lemma_concat_of_concat_or_empty(*second, rest);
            assert(parse_concatnate_spec(tail) == Some((*second, rest)));
            assert(tail.len() < (pattern_string(p) + rest).len()) by {
                lemma_first_char(*first, 1);
            }
            assert(parse_concatnate_spec(pattern_string(p) + rest) == Some((p, rest)));
        },
        _ => {
            lemma_rt_repeat(p, rest);
            assert(parse_repeat_spec(bracket_string(p, 1) + rest) == Some((p, rest)));
            lemma_nothing_parses(rest);
            assert(parse_concatnate_spec(bracket_string(p, 1) + rest) == Some((p, rest)));
        },
    }
}

/// The round trip at the `repeat` level; `rest` may not begin with a star,
/// which would extend the production.
proof fn lemma_rt_repeat(p: Pattern, rest: Seq<char>)
    requires
        printable(p),
        !(p matches Pattern::Empty),
        !(p matches Pattern::Concatnate { .. }),
        rest.len() == 0 || rest[0] != '*',
    ensures
        parse_repeat_spec(bracket_string(p, 1) + rest) == Some((p, rest)),
    decreases psize(p), rt_rank(1, p),
{
    match p {
        Pattern::Literal(c) => {
            lemma_rt_atom(p, rest);
            assert(bracket_string(p, 1) == bracket_string(p, 2));
            assert(parse_repeat_spec(bracket_string(p, 1) + rest) == Some((p, rest)));
        },
        Pattern::Choose { first, second } => {
            lemma_rt_atom(p, rest);
            assert(bracket_string(p, 1) == bracket_string(p, 2));
            assert(parse_repeat_spec(bracket_string(p, 1) + rest) == Some((p, rest)));
        },
        Pattern::Repeat(inner) => {
            assert(spec_precedence(p) == 2);
            assert(bracket_string(p, 1) == pattern_string(p));
            let star_rest = seq!['*'] + rest;
            lemma_rt_atom(*inner, star_rest);
            assert(pattern_string(p) + rest =~= bracket_string(*inner, 2) + star_rest);
            assert(parse_brackets_spec(pattern_string(p) + rest) == Some((*inner, star_rest)));
            assert(star_rest[0] == '*');
            assert(star_rest.drop_first() =~= rest);
            assert(parse_repeat_spec(pattern_string(p) + rest) == Some((p, rest)));
        },
        _ => {},
    }
}

/// The round trip at the bracketed-atom level: a letter stands alone; a
/// choose or concatenation appears between parentheses.
proof fn lemma_rt_atom(p: Pattern, rest: Seq<char>)
    requires
        printable(p),
        p matches Pattern::Literal(_) || p matches Pattern::Choose { .. }
            || p matches Pattern::Concatnate { .. },
    ensures
        parse_brackets_spec(bracket_string(p, 2) + rest) == Some((p, rest)),
    decreases psize(p), rt_rank(0, p),
{
    match p {
        Pattern::Literal(c) => {
            assert(bracket_string(p, 2) == seq![c]);
            let s = bracket_string(p, 2) + rest;
            assert(s[0] == c);
            assert(s.drop_first() =~= rest);
            assert(c != '(') by {
                assert(is_regex_letter(c));
            }
            assert(parse_brackets_spec(s) == Some((p, rest)));
        },
        _ => {
            assert(spec_precedence(p) < 2);
            assert(bracket_string(p, 2) == seq!['('] + pattern_string(p) + seq![')']);
            let close_rest = seq![')'] + rest;
            lemma_rt_choose(p, close_rest);
            let s = bracket_string(p, 2) + rest;
            assert(s[0] == '(');
            assert(s.drop_first() =~= pattern_string(p) + close_rest);
            assert(parse_choose_spec(s.drop_first()) == Some((p, close_rest)));
            assert(close_rest[0] == ')');
            assert(close_rest.drop_first() =~= rest);
            assert(parse_brackets_spec(s) == Some((p, rest)));
        },
    }
}

/// On text that is over, closes a group or starts an alternative, the
/// bracketed-atom, repeat and concatenation productions all fail.
proof fn lemma_nothing_parses(rest: Seq<char>)
    requires
        rest.len() == 0 || rest[0] == ')' || rest[0] == '|',
    ensures
        parse_brackets_spec(rest) is None,
        parse_repeat_spec(rest) is None,
        parse_concatnate_spec(rest) is None,
{
}

/// A successful concat-or-empty parse of non-empty shape is also the plain
/// concatenation parse.
proof fn lemma_concat_of_concat_or_empty(p: Pattern, rest: Seq<char>)
    requires
        printable(p),
        !(p matches Pattern::Empty),
        parse_concatnate_or_empty_spec(bracket_string(p, 1) + rest) == Some((p, rest)),
    ensures
        parse_concatnate_spec(bracket_string(p, 1) + rest) == Some((p, rest)),
{
    let s = bracket_string(p, 1) + rest;
    match parse_concatnate_spec(s) {
        Some(pr) => {},
        None => {
            assert(parse_concatnate_or_empty_spec(s) == Some((Pattern::Empty, s)));
        },
    }
}

/// Pretty-print / parse round trip: the printed text of a printable
/// pattern parses back to exactly that pattern, with nothing left over.
pub proof fn lemma_print_parse_round_trip(p: Pattern)
    requires
        printable(p),
    ensures
        spec_parse(pattern_string(p)) == Some(p),
{
    lemma_rt_choose(p, Seq::empty());
    assert(pattern_string(p) + Seq::<char>::empty() =~= pattern_string(p));
}

/// Parse regex text; `None` exactly when the text is not a word of the
/// grammar (a failed production or leftover input).
pub fn parse(s: &str) -> (r: Option<Pattern>)
    ensures
        r == spec_parse(s@),
{
    let chars = str_to_chars(s);
    proof {
        assert(chars@.skip(0) =~= chars@);
    }
    match choose_parser(&chars, 0) {
        Some((p, pos)) => {
            if pos == chars.len() {
                proof {
                    assert(chars@.skip(pos as int).len() == 0);
                }
                Some(p)
            } else {
                None
            }
        },
        None => None,
    }
}

pub fn literal_parser(chars: &Vec<char>, pos: usize) -> (r: Option<(Pattern, usize)>)
    requires
        pos <= chars@.len(),
    ensures
        ({
            let sp = parse_literal_spec(chars@.skip(pos as int));
            match r {
                Some(pr) => sp == Some((pr.0, chars@.skip(pr.1 as int))) && pos < pr.1
                    <= chars@.len(),
                None => sp is None,
            }
        }),
{
    if pos < chars.len() {
        let c = chars[pos];
        let cu = c as u32;
        if (97 <= cu && cu <= 122) || (65 <= cu && cu <= 90) {
            proof {
                assert(chars@.skip(pos as int)[0] == chars@[pos as int]);
                assert(chars@.skip(pos as int).drop_first() =~= chars@.skip(pos + 1));
            }
            return Some((Pattern::Literal(c), pos + 1));
        }
    }
    proof {
        if pos < chars@.len() {
            assert(chars@.skip(pos as int)[0] == chars@[pos as int]);
        }
    }
    None
}

pub fn empty_parser(chars: &Vec<char>, pos: usize) -> (r: Option<(Pattern, usize)>)
    requires
        pos <= chars@.len(),
    ensures
        ({
            let sp = parse_empty_spec(chars@.skip(pos as int));
            match r {
                Some(pr) => sp == Some((pr.0, chars@.skip(pr.1 as int))) && pos <= pr.1
                    <= chars@.len(),
                None => sp is None,
            }
        }),
{
    Some((Pattern::Empty, pos))
}

pub fn brackets_parser(chars: &Vec<char>, pos: usize) -> (r: Option<(Pattern, usize)>)
    requires
        pos <= chars@.len(),
    ensures
        ({
            let sp = parse_brackets_spec(chars@.skip(pos as int));
            match r {
                Some(pr) => sp == Some((pr.0, chars@.skip(pr.1 as int))) && pos < pr.1
                    <= chars@.len(),
                None => sp is None,
            }
        }),
    decreases chars@.len() - pos, 0int,
{
    if pos < chars.len() && chars[pos] == '(' {
        proof {
            assert(chars@.skip(pos as int)[0] == chars@[pos as int]);
            assert(chars@.skip(pos as int).drop_first() =~= chars@.skip(pos + 1));
        }
        match choose_parser(chars, pos + 1) {
            Some((p, pos2)) => {
                if pos2 < chars.len() && chars[pos2] == ')' {
                    proof {
                        assert(chars@.skip(pos2 as int)[0] == chars@[pos2 as int]);
                        assert(chars@.skip(pos2 as int).drop_first() =~= chars@.skip(pos2 + 1));
                    }
                    Some((p, pos2 + 1))
                } else {
                    proof {
                        if pos2 < chars@.len() {
                            assert(chars@.skip(pos2 as int)[0] == chars@[pos2 as int]);
                        }
                    }
                    None
                }
            },
            None => None,
        }
    } else {
        proof {
            if pos < chars@.len() {
                assert(chars@.skip(pos as int)[0] == chars@[pos as int]);
            }
        }
        literal_parser(chars, pos)
    }
}

pub fn repeat_parser(chars: &Vec<char>, pos: usize) -> (r: Option<(Pattern, usize)>)
    requires
        pos <= chars@.len(),
    ensures
        ({
            let sp = parse_repeat_spec(chars@.skip(pos as int));
            match r {
                Some(pr) => sp == Some((pr.0, chars@.skip(pr.1 as int))) && pos < pr.1
                    <= chars@.len(),
                None => sp is None,
            }
        }),
    decreases chars@.len() - pos, 1int,
{
    match brackets_parser(chars, pos) {
        Some((p, pos2)) => {
            if pos2 < chars.len() && chars[pos2] == '*' {
                proof {
                    assert(chars@.skip(pos2 as int)[0] == chars@[pos2 as int]);
                    assert(chars@.skip(pos2 as int).drop_first() =~= chars@.skip(pos2 + 1));
                }
                Some((Pattern::Repeat(Box::new(p)), pos2 + 1))
            } else {
                proof {
                    if pos2 < chars@.len() {
                        assert(chars@.skip(pos2 as int)[0] == chars@[pos2 as int]);
                    }
                }
                Some((p, pos2))
            }
        },
        None => None,
    }
}

pub fn concatnate_parser(chars: &Vec<char>, pos: usize) -> (r: Option<(Pattern, usize)>)
    requires
        pos <= chars@.len(),
    ensures
        ({
            let sp = parse_concatnate_spec(chars@.skip(pos as int));
            match r {
                Some(pr) => sp == Some((pr.0, chars@.skip(pr.1 as int))) && pos < pr.1
                    <= chars@.len(),
                None => sp is None,
            }
        }),
    decreases chars@.len() - pos, 2int,
{
    match repeat_parser(chars, pos) {
        Some((p, pos2)) => {
            proof {
                assert(chars@.skip(pos2 as int).len() < chars@.skip(pos as int).len());
            }
            match concatnate_parser(chars, pos2) {
                Some((q, pos3)) => Some(
                    (Pattern::Concatnate { first: Box::new(p), second: Box::new(q) }, pos3),
                ),
                None => Some((p, pos2)),
            }
        },
        None => None,
    }
}

pub fn concatnate_or_empty_parser(chars: &Vec<char>, pos: usize) -> (r: Option<(Pattern, usize)>)
    requires
        pos <= chars@.len(),
    ensures
        ({
            let sp = parse_concatnate_or_empty_spec(chars@.skip(pos as int));
            match r {
                Some(pr) => sp == Some((pr.0, chars@.skip(pr.1 as int))) && pos <= pr.1
                    <= chars@.len(),
                None => sp is None,
            }
        }),
    decreases chars@.len() - pos, 3int,
{
    match concatnate_parser(chars, pos) {
        Some(pr) => Some(pr),
        None => empty_parser(chars, pos),
    }
}

pub fn choose_parser(chars: &Vec<char>, pos: usize) -> (r: Option<(Pattern, usize)>)
    requires
        pos <= chars@.len(),
    ensures
        ({
            let sp = parse_choose_spec(chars@.skip(pos as int));
            match r {
                Some(pr) => sp == Some((pr.0, chars@.skip(pr.1 as int))) && pos <= pr.1
                    <= chars@.len(),
                None => sp is None,
            }
        }),
    decreases chars@.len() - pos, 4int,
{
    match concatnate_or_empty_parser(chars, pos) {
        Some((p, pos2)) => {
            if pos2 < chars.len() && chars[pos2] == '|' {
                proof {
                    assert(chars@.skip(pos2 as int)[0] == chars@[pos2 as int]);
                    assert(chars@.skip(pos2 as int).drop_first() =~= chars@.skip(pos2 + 1));
                    assert(chars@.skip(pos2 + 1).len() < chars@.skip(pos as int).len());
                }
                match choose_parser(chars, pos2 + 1) {
                    Some((q, pos3)) => Some(
                        (Pattern::Choose { first: Box::new(p), second: Box::new(q) }, pos3),
                    ),
                    None => None,
                }
            } else {
                proof {
                    if pos2 < chars@.len() {
                        assert(chars@.skip(pos2 as int)[0] == chars@[pos2 as int]);
                    }
                }
                Some((p, pos2))
            }
        },
        None => None,
    }
}

} // verus!
