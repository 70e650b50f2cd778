//! Regular-expression patterns and Thompson's construction.
//!
//! A pattern compiles to an NFA with free moves; compilation is mirrored by
//! the specification function `compile`, which fixes every state, rule and
//! accept state the construction produces given the allocator's counter, so
//! matching has an exact meaning: `pattern_accepts`.

use vstd::prelude::*;
use crate::fa_rule::FARule;
use crate::nfa::{
    FREE_MOVE, NFADesign, NFARulebook, eps_closure, nfa_run, set_intersects, alphabet_spec,
    chars_in, nfa_design_accepts,
};
use crate::state::StateAllocator;
use crate::sets::copy_vec;
use vstd::string::StrSliceExecFns;

verus! {

#[derive(Debug)]
pub enum Pattern {
    Empty,
    Literal(char),
    Concatnate { first: Box<Pattern>, second: Box<Pattern> },
    Choose { first: Box<Pattern>, second: Box<Pattern> },
    Repeat(Box<Pattern>),
}

/// What compiling a pattern produces, given the allocator counter it starts
/// from: the start state, the accept states, the rules, and the counter left
/// behind.
pub struct CompiledNfa {
    pub start: u32,
    pub accepts: Seq<u32>,
    pub rules: Seq<FARule<u32>>,
    pub next: u32,
}

/// How many fresh states compiling the pattern mints.
pub open spec fn states_needed(p: Pattern) -> int
    decreases p,
{
    match p {
        Pattern::Empty => 1,
        Pattern::Literal(_) => 2,
        Pattern::Concatnate { first, second } => states_needed(*first) + states_needed(*second),
        Pattern::Choose { first, second } => states_needed(*first) + states_needed(*second) + 1,
        Pattern::Repeat(inner) => states_needed(*inner) + 1,
    }
}

pub proof fn lemma_states_needed_pos(p: Pattern)
    ensures
        states_needed(p) >= 1,
    decreases p,
{
    match p {
        Pattern::Concatnate { first, second } => {
            lemma_states_needed_pos(*first);
            lemma_states_needed_pos(*second);
        }
        Pattern::Choose { first, second } => {
            lemma_states_needed_pos(*first);
            lemma_states_needed_pos(*second);
        }
        Pattern::Repeat(inner) => {
            lemma_states_needed_pos(*inner);
        }
        _ => {}
    }
}

/// A free move from each of `accepts` to `target`.
pub open spec fn link_rules(accepts: Seq<u32>, target: u32) -> Seq<FARule<u32>> {
    accepts.map_values(
        |a: u32| FARule { state: a, character: FREE_MOVE, next_state: target },
    )
}

/// Thompson's construction, state by state: `n` is the allocator counter
/// when compilation starts, and fresh states are minted in the order the
/// executable compiler mints them.
pub open spec fn compile(p: Pattern, n: u32) -> CompiledNfa
    decreases p,
{
    match p {
        Pattern::Empty => CompiledNfa {
            start: n,
            accepts: seq![n],
            rules: Seq::empty(),
            next: (n + 1) as u32,
        },
        Pattern::Literal(c) => CompiledNfa {
            start: n,
            accepts: seq![(n + 1) as u32],
            rules: seq![
                FARule { state: n, character: c, next_state: (n + 1) as u32 },
            ],
            next: (n + 2) as u32,
        },
        Pattern::Concatnate { first, second } => {
            let a = compile(*first, n);
            let b = compile(*second, a.next);
            CompiledNfa {
                start: a.start,
                accepts: b.accepts,
                rules: a.rules + b.rules + link_rules(a.accepts, b.start),
                next: b.next,
            }
        },
        Pattern::Choose { first, second } => {
            let a = compile(*first, n);
            let b = compile(*second, a.next);
            let s = b.next;
            CompiledNfa {
                start: s,
                accepts: a.accepts + b.accepts,
                rules: a.rules + b.rules + seq![
                    FARule { state: s, character: FREE_MOVE, next_state: a.start },
                    FARule { state: s, character: FREE_MOVE, next_state: b.start },
                ],
                next: (s + 1) as u32,
            }
        },
        Pattern::Repeat(inner) => {
            let a = compile(*inner, n);
            let s = a.next;
            CompiledNfa {
                start: s,
                accepts: a.accepts.push(s),
                rules: a.rules + seq![
                    FARule { state: s, character: FREE_MOVE, next_state: a.start },
                ] + link_rules(a.accepts, a.start),
                next: (s + 1) as u32,
            }
        },
    }
}

/// Compilation consumes exactly `states_needed` counter values.
pub proof fn lemma_compile_next(p: Pattern, n: u32)
    requires
        n + states_needed(p) <= u32::MAX,
    ensures
        compile(p, n).next == n + states_needed(p),
    decreases p,
{
    match p {
        Pattern::Concatnate { first, second } => {
            lemma_states_needed_pos(*first);
            lemma_states_needed_pos(*second);
            lemma_compile_next(*first, n);
            lemma_compile_next(*second, compile(*first, n).next);
        }
        Pattern::Choose { first, second } => {
            lemma_states_needed_pos(*first);
            lemma_states_needed_pos(*second);
            lemma_compile_next(*first, n);
            lemma_compile_next(*second, compile(*first, n).next);
        }
        Pattern::Repeat(inner) => {
            lemma_states_needed_pos(*inner);
            lemma_compile_next(*inner, n);
        }
        _ => {}
    }
}

/// Whether the NFA compiled from `p` (with a fresh allocator) accepts `w`.
pub open spec fn pattern_accepts(p: Pattern, w: Seq<char>) -> bool {
    let c = compile(p, 0);
    set_intersects(
        nfa_run(c.rules, eps_closure(c.rules, Set::empty().insert(c.start)), w),
        c.accepts.to_set(),
    )
}

/// Structural equality of two patterns.
pub fn pattern_eq(a: &Pattern, b: &Pattern) -> (r: bool)
    ensures
        r == (*a == *b),
    decreases *a,
{
    match (a, b) {
        (Pattern::Empty, Pattern::Empty) => true,
        (Pattern::Literal(c1), Pattern::Literal(c2)) => c1 == c2,
        (
            Pattern::Concatnate { first: f1, second: s1 },
            Pattern::Concatnate { first: f2, second: s2 },
        ) => pattern_eq(&**f1, &**f2) && pattern_eq(&**s1, &**s2),
        (
            Pattern::Choose { first: f1, second: s1 },
            Pattern::Choose { first: f2, second: s2 },
        ) => pattern_eq(&**f1, &**f2) && pattern_eq(&**s1, &**s2),
        (Pattern::Repeat(p1), Pattern::Repeat(p2)) => pattern_eq(&**p1, &**p2),
        _ => false,
    }
}

impl PartialEq for Pattern {
    fn eq(&self, other: &Pattern) -> (r: bool)
        ensures
            r == (*self == *other),
    {
        pattern_eq(self, other)
    }
}

impl vstd::std_specs::cmp::PartialEqSpecImpl for Pattern {
    open spec fn obeys_eq_spec() -> bool {
        true
    }

    open spec fn eq_spec(&self, other: &Pattern) -> bool {
        *self == *other
    }
}

pub open spec fn spec_precedence(p: Pattern) -> u32 {
    match p {
        Pattern::Empty => 3,
        Pattern::Literal(_) => 3,
        Pattern::Concatnate { .. } => 1,
        Pattern::Choose { .. } => 0,
        Pattern::Repeat(_) => 2,
    }
}

/// The text of the pattern, parenthesising a subpattern whenever it binds
/// less tightly than its context.
pub open spec fn pattern_string(p: Pattern) -> Seq<char>
    decreases p, 0int,
{
    match p {
        Pattern::Empty => Seq::empty(),
        Pattern::Literal(c) => seq![c],
        Pattern::Concatnate { first, second } => bracket_string(*first, 1) + bracket_string(
            *second,
            1,
        ),
        Pattern::Choose { first, second } => bracket_string(*first, 0) + seq!['|']
            + bracket_string(*second, 0),
        Pattern::Repeat(inner) => bracket_string(*inner, 2) + seq!['*'],
    }
}

pub open spec fn bracket_string(p: Pattern, outer: u32) -> Seq<char>
    decreases p, 1int,
{
    if spec_precedence(p) < outer {
        seq!['('] + pattern_string(p) + seq![')']
    } else {
        pattern_string(p)
    }
}

impl Pattern {
    pub fn precedence(&self) -> (r: u32)
        ensures
            r == spec_precedence(*self),
    {
        match self {
            Pattern::Empty => 3,
            Pattern::Literal(_) => 3,
            Pattern::Concatnate { .. } => 1,
            Pattern::Choose { .. } => 0,
            Pattern::Repeat(_) => 2,
        }
    }

    /// The pattern's text, bracketed for a context of the given precedence.
    pub fn bracket(&self, outer_precedence: u32) -> (r: String)
        ensures
            r@ == bracket_string(*self, outer_precedence),
        decreases *self, 1int,
    {
        if self.precedence() < outer_precedence {
            let mut s = String::new();
            s.push('(');
            let inner = self.to_regex_string();
            s.append(inner.as_str());
            s.push(')');
            proof {
                assert(s@ =~= seq!['('] + pattern_string(*self) + seq![')']);
            }
            s
        } else {
            self.to_regex_string()
        }
    }

    /// The pattern written back out as regex text.
    pub fn to_regex_string(&self) -> (r: String)
        ensures
            r@ == pattern_string(*self),
        decreases *self, 0int,
    {
        match self {
            Pattern::Empty => String::new(),
            Pattern::Literal(c) => {
                let mut s = String::new();
                s.push(*c);
                proof {
                    assert(s@ =~= seq![*c]);
                }
                s
            },
            Pattern::Concatnate { first, second } => {
                let mut s = first.bracket(1);
                let t = second.bracket(1);
                s.append(t.as_str());
                s
            },
            Pattern::Choose { first, second } => {
                let mut s = first.bracket(0);
                s.push('|');
                let t = second.bracket(0);
                s.append(t.as_str());
                proof {
                    assert(s@ =~= bracket_string(**first, 0) + seq!['|'] + bracket_string(
                        **second,
                        0,
                    ));
                }
                s
            },
            Pattern::Repeat(inner) => {
                let mut s = inner.bracket(2);
                s.push('*');
                proof {
                    assert(s@ =~= bracket_string(**inner, 2) + seq!['*']);
                }
                s
            },
        }
    }

    /// Compile to an NFA design, minting fresh states from the allocator;
    /// the result is exactly what `compile` says.
    pub fn to_nfa_design(&self, alloc: &mut StateAllocator) -> (r: NFADesign)
        requires
            old(alloc).counter() + states_needed(*self) <= u32::MAX,
        ensures
            ({
                let c = compile(*self, old(alloc).counter());
                &&& final(alloc).counter() == c.next
                &&& r.start_state == c.start
                &&& r.accept_states@ == c.accepts
                &&& r.rulebook.rules@ == c.rules
            }),
        decreases *self,
    {
        proof {
            lemma_states_needed_pos(*self);
        }
        match self {
            Pattern::Empty => {
                let s = alloc.new_state();
                let r = NFADesign::new((s, vec![s], NFARulebook { rules: Vec::new() }));
                proof {
                    assert(r.accept_states@ =~= compile(*self, old(alloc).counter()).accepts);
                    assert(r.rulebook.rules@ =~= compile(*self, old(alloc).counter()).rules);
                }
                r
            },
            Pattern::Literal(c) => {
                let s = alloc.new_state();
                let a = alloc.new_state();
                let mut rules: Vec<FARule<u32>> = Vec::new();
                rules.push(FARule::new((s, *c, a)));
                let r = NFADesign::new((s, vec![a], NFARulebook { rules }));
                proof {
                    assert(r.accept_states@ =~= compile(*self, old(alloc).counter()).accepts);
                    assert(r.rulebook.rules@ =~= compile(*self, old(alloc).counter()).rules);
                }
                r
            },
            Pattern::Concatnate { first, second } => {
                proof {
                    lemma_states_needed_pos(**first);
                    lemma_states_needed_pos(**second);
                    lemma_compile_next(**first, alloc.counter());
                }
                let ghost n0 = alloc.counter();
                let fd = first.to_nfa_design(alloc);
                let sd = second.to_nfa_design(alloc);
                let ghost ca = compile(**first, n0);
                let ghost cb = compile(**second, ca.next);
                let mut rules = copy_vec(fd.rulebook.rules());
                let mut second_rules = copy_vec(sd.rulebook.rules());
                rules.append(&mut second_rules);
                let sd_start = *sd.start_state();
                let fd_accepts = fd.accept_states();
                let mut i: usize = 0;
                proof {
                    assert(link_rules(ca.accepts.take(0), cb.start) =~= Seq::<
                        FARule<u32>,
                    >::empty());
                    assert(rules@ =~= ca.rules + cb.rules + link_rules(
                        ca.accepts.take(0),
                        cb.start,
                    ));
                }
                while i < fd_accepts.len()
                    invariant
                        i <= fd_accepts@.len(),
                        fd_accepts@ == ca.accepts,
                        sd_start == cb.start,
                        rules@ == ca.rules + cb.rules + link_rules(
                            ca.accepts.take(i as int),
                            cb.start,
                        ),
                    decreases fd_accepts@.len() - i,
                {
                    rules.push(FARule::new((fd_accepts[i], FREE_MOVE, sd_start)));
                    proof {
                        assert(link_rules(ca.accepts.take(i + 1), cb.start) =~= link_rules(
                            ca.accepts.take(i as int),
                            cb.start,
                        ).push(
                            FARule {
                                state: ca.accepts[i as int],
                                character: FREE_MOVE,
                                next_state: cb.start,
                            },
                        ));
                        assert(rules@ =~= ca.rules + cb.rules + link_rules(
                            ca.accepts.take(i + 1),
                            cb.start,
                        ));
                    }
                    i += 1;
                }
                proof {
                    assert(ca.accepts.take(ca.accepts.len() as int) =~= ca.accepts);
                }
                let accepts = copy_vec(sd.accept_states());
                let fd_start = *fd.start_state();
                NFADesign::new((fd_start, accepts, NFARulebook { rules }))
            },
            Pattern::Choose { first, second } => {
                proof {
                    lemma_states_needed_pos(**first);
                    lemma_states_needed_pos(**second);
                    lemma_compile_next(**first, alloc.counter());
                    lemma_compile_next(
                        **second,
                        compile(**first, alloc.counter()).next,
                    );
                }
                let ghost n0 = alloc.counter();
                let fd = first.to_nfa_design(alloc);
                let sd = second.to_nfa_design(alloc);
                let s = alloc.new_state();
                let ghost ca = compile(**first, n0);
                let ghost cb = compile(**second, ca.next);
                let mut rules = copy_vec(fd.rulebook.rules());
                let mut second_rules = copy_vec(sd.rulebook.rules());
                rules.append(&mut second_rules);
                rules.push(FARule::new((s, FREE_MOVE, *fd.start_state())));
                rules.push(FARule::new((s, FREE_MOVE, *sd.start_state())));
                let mut accepts = copy_vec(fd.accept_states());
                let mut second_accepts = copy_vec(sd.accept_states());
                accepts.append(&mut second_accepts);
                let r = NFADesign::new((s, accepts, NFARulebook { rules }));
                proof {
                    assert(r.rulebook.rules@ =~= compile(*self, n0).rules);
                    assert(r.accept_states@ =~= compile(*self, n0).accepts);
                }
                r
            },
            Pattern::Repeat(inner) => {
                proof {
                    lemma_states_needed_pos(**inner);
                    lemma_compile_next(**inner, alloc.counter());
                }
                let ghost n0 = alloc.counter();
                let pd = inner.to_nfa_design(alloc);
                let s = alloc.new_state();
                let ghost ca = compile(**inner, n0);
                let pd_start = *pd.start_state();
                let mut rules = copy_vec(pd.rulebook.rules());
                rules.push(FARule::new((s, FREE_MOVE, pd_start)));
                let pd_accepts = pd.accept_states();
                let mut i: usize = 0;
                proof {
                    assert(rules@ =~= ca.rules + seq![
                        FARule { state: s, character: FREE_MOVE, next_state: ca.start },
                    ] + link_rules(ca.accepts.take(0), ca.start));
                }
                while i < pd_accepts.len()
                    invariant
                        i <= pd_accepts@.len(),
                        pd_accepts@ == ca.accepts,
                        pd_start == ca.start,
                        s == ca.next,
                        rules@ == ca.rules + seq![
                            FARule { state: s, character: FREE_MOVE, next_state: ca.start },
                        ] + link_rules(ca.accepts.take(i as int), ca.start),
                    decreases pd_accepts@.len() - i,
                {
                    rules.push(FARule::new((pd_accepts[i], FREE_MOVE, pd_start)));
                    proof {
                        assert(link_rules(ca.accepts.take(i + 1), ca.start) =~= link_rules(
                            ca.accepts.take(i as int),
                            ca.start,
                        ).push(
                            FARule {
                                state: ca.accepts[i as int],
                                character: FREE_MOVE,
                                next_state: ca.start,
                            },
                        ));
                        assert(rules@ =~= ca.rules + seq![
                            FARule { state: s, character: FREE_MOVE, next_state: ca.start },
                        ] + link_rules(ca.accepts.take(i + 1), ca.start));
                    }
                    i += 1;
                }
                proof {
                    assert(ca.accepts.take(ca.accepts.len() as int) =~= ca.accepts);
                }
                let mut accepts = copy_vec(pd.accept_states());
                accepts.push(s);
                let r = NFADesign::new((s, accepts, NFARulebook { rules }));
                proof {
                    assert(r.accept_states@ =~= compile(*self, n0).accepts);
                }
                r
            },
        }
    }

    /// Whether the pattern matches the whole of `str`: compile with a fresh
    /// allocator and run the NFA.
    pub fn is_match(&self, str: &str) -> (r: bool)
        requires
            states_needed(*self) <= u32::MAX,
        ensures
            r == pattern_accepts(*self, str@),
    {
        let mut alloc = StateAllocator::new();
        let design = self.to_nfa_design(&mut alloc);
        design.is_accept(str)
    }
}

/// Thompson round-trip: a pattern matches a word exactly when the
/// determinised automaton built from its compiled NFA accepts it. The
/// hypotheses are what `to_nfa_design` (run on a fresh allocator) and
/// `to_dfa_design` promise of their results.
pub proof fn lemma_thompson_round_trip(
    p: Pattern,
    d: NFADesign,
    dfa: crate::dfa_from_nfa::DFADesign,
    w: Seq<char>,
)
    requires
        d.start_state == compile(p, 0).start,
        d.accept_states@ == compile(p, 0).accepts,
        d.rulebook.rules@ == compile(p, 0).rules,
        forall|w2: Seq<char>|
            #![trigger chars_in(w2, alphabet_spec(d.rulebook.rules@))]
            chars_in(w2, alphabet_spec(d.rulebook.rules@)) ==> crate::dfa_from_nfa::cdfa_design_accepts(
                dfa,
                w2,
            ) == nfa_design_accepts(d, w2),
        chars_in(w, alphabet_spec(d.rulebook.rules@)),
    ensures
        pattern_accepts(p, w) == crate::dfa_from_nfa::cdfa_design_accepts(dfa, w),
{
    assert(pattern_accepts(p, w) == nfa_design_accepts(d, w));
}

} // verus!
