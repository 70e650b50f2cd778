//! The deterministic automaton produced by the subset construction.
//!
//! Its states are composite: canonical vectors of atomic states, compared by
//! contents. The engine itself mirrors the atomic one; the rules that drive
//! it are built by `NFASimulation`.

use vstd::prelude::*;
use crate::fa_rule::FARule;
use crate::sets::copy_vec;
use vstd::string::StrSliceExecFns;

verus! {

/// The mathematical content of a composite-state rule.
pub struct CRule {
    pub state: Seq<u32>,
    pub character: char,
    pub next_state: Seq<u32>,
}

pub open spec fn crule_of(r: FARule<Vec<u32>>) -> CRule {
    CRule { state: r.state@, character: r.character, next_state: r.next_state@ }
}

pub open spec fn crules_view(rules: Seq<FARule<Vec<u32>>>) -> Seq<CRule> {
    rules.map_values(|r: FARule<Vec<u32>>| crule_of(r))
}

pub open spec fn capplies(r: CRule, s: Seq<u32>, c: char) -> bool {
    r.state == s && r.character == c
}

/// The first composite rule at index `i` or later that matches `(s, c)`.
pub open spec fn cfirst_match_from(rules: Seq<CRule>, s: Seq<u32>, c: char, i: int) -> Option<
    CRule,
>
    decreases rules.len() - i,
{
    if !(0 <= i < rules.len()) {
        None
    } else if capplies(rules[i], s, c) {
        Some(rules[i])
    } else {
        cfirst_match_from(rules, s, c, i + 1)
    }
}

pub open spec fn cfirst_match(rules: Seq<CRule>, s: Seq<u32>, c: char) -> Option<CRule> {
    cfirst_match_from(rules, s, c, 0)
}

pub open spec fn cdfa_step(rules: Seq<CRule>, s: Seq<u32>, c: char) -> Option<Seq<u32>> {
    match cfirst_match(rules, s, c) {
        Some(r) => Some(r.next_state),
        None => None,
    }
}

/// The composite state reached from `s` after reading `w`, if no character
/// leaves the automaton without a matching rule.
pub open spec fn cdfa_run(rules: Seq<CRule>, s: Seq<u32>, w: Seq<char>) -> Option<Seq<u32>>
    decreases w.len(),
{
    if w.len() == 0 {
        Some(s)
    } else {
        match cdfa_step(rules, s, w[0]) {
            Some(s2) => cdfa_run(rules, s2, w.drop_first()),
            None => None,
        }
    }
}

/// No two distinct composite rules match the same `(state, character)`
/// pair: for every pair there is at most one applicable rule.
pub open spec fn cdeterministic(crules: Seq<CRule>) -> bool {
    forall|i: int, j: int|
        0 <= i < crules.len() && 0 <= j < crules.len() && crules[i].state == crules[j].state
            && crules[i].character == crules[j].character ==> i == j
}

/// In a deterministic composite rulebook, every rule that applies to
/// `(s, c)` is the rule that stepping follows: for a covered pair there is
/// exactly one applicable rule, and `cdfa_step` takes it.
pub proof fn lemma_cdfa_step_deterministic(crules: Seq<CRule>, s: Seq<u32>, c: char, i: int)
    requires
        cdeterministic(crules),
        0 <= i < crules.len(),
        capplies(crules[i], s, c),
    ensures
        cfirst_match(crules, s, c) == Some(crules[i]),
        cdfa_step(crules, s, c) == Some(crules[i].next_state),
{
    lemma_cfirst_match_unique(crules, s, c, i, 0);
}

proof fn lemma_cfirst_match_unique(crules: Seq<CRule>, s: Seq<u32>, c: char, i: int, j: int)
    requires
        cdeterministic(crules),
        0 <= j <= i < crules.len(),
        capplies(crules[i], s, c),
    ensures
        cfirst_match_from(crules, s, c, j) == Some(crules[i]),
    decreases crules.len() - j,
{
    if capplies(crules[j], s, c) {
        assert(j == i);
    } else {
        assert(j != i);
        lemma_cfirst_match_unique(crules, s, c, i, j + 1);
    }
}

/// The contents of a list of composite states.
pub open spec fn composites_views(list: Seq<Vec<u32>>) -> Seq<Seq<u32>> {
    list.map_values(|v: Vec<u32>| v@)
}

/// Membership of a composite state in a list of contents.
pub open spec fn composite_member(list: Seq<Seq<u32>>, q: Seq<u32>) -> bool {
    exists|i: int| 0 <= i < list.len() && #[trigger] list[i] == q
}

/// Some member of the list holds exactly the set `s`.
pub open spec fn composite_set_member(qs: Seq<Seq<u32>>, s: Set<u32>) -> bool {
    exists|l: int| 0 <= l < qs.len() && (#[trigger] qs[l]).to_set() == s
}

/// The acceptance decision of the determinised automaton for `w`.
pub open spec fn cdfa_design_accepts(d: DFADesign, w: Seq<char>) -> bool {
    match cdfa_run(crules_view(d.rulebook.rules@), d.current_state@, w) {
        Some(s) => composite_member(composites_views(d.accept_states@), s),
        None => false,
    }
}

/// A fresh composite rule with the same contents.
pub fn copy_crule(r: &FARule<Vec<u32>>) -> (out: FARule<Vec<u32>>)
    ensures
        crule_of(out) == crule_of(*r),
{
    FARule {
        state: copy_vec(&r.state),
        character: r.character,
        next_state: copy_vec(&r.next_state),
    }
}

pub fn copy_crules(v: &Vec<FARule<Vec<u32>>>) -> (r: Vec<FARule<Vec<u32>>>)
    ensures
        crules_view(r@) == crules_view(v@),
{
    let mut r: Vec<FARule<Vec<u32>>> = Vec::new();
    let mut i: usize = 0;
    while i < v.len()
        invariant
            i <= v.len(),
            r@.len() == i,
            forall|j: int| 0 <= j < i ==> crule_of(#[trigger] r@[j]) == crule_of(v@[j]),
        decreases v.len() - i,
    {
        r.push(copy_crule(&v[i]));
        i += 1;
    }
    proof {
        assert(crules_view(r@) =~= crules_view(v@));
    }
    r
}

pub fn copy_composites(v: &Vec<Vec<u32>>) -> (r: Vec<Vec<u32>>)
    ensures
        r@.len() == v@.len(),
        forall|j: int| 0 <= j < v@.len() ==> #[trigger] r@[j]@ == v@[j]@,
        composites_views(r@) == composites_views(v@),
{
    let mut r: Vec<Vec<u32>> = Vec::new();
    let mut i: usize = 0;
    while i < v.len()
        invariant
            i <= v.len(),
            r@.len() == i,
            forall|j: int| 0 <= j < i ==> #[trigger] r@[j]@ == v@[j]@,
        decreases v.len() - i,
    {
        r.push(copy_vec(&v[i]));
        i += 1;
    }
    r
}

/// A list of composite states, each canonical, no two with the same
/// contents.
pub open spec fn canonical_list(qs: Seq<Seq<u32>>) -> bool {
    (forall|k: int|
        0 <= k < qs.len() ==> crate::sets::strictly_sorted(#[trigger] qs[k])) && (forall|
        k: int,
        l: int,
    |
        0 <= k < l < qs.len() ==> qs[k] != qs[l])
}

/// Canonicalize every given composite state and drop repeats; the result is
/// a canonical list standing for exactly the given sets.
pub fn canonical_dedup(states: &Vec<Vec<u32>>) -> (r: Vec<Vec<u32>>)
    ensures
        canonical_list(composites_views(r@)),
        forall|k: int|
            #![trigger composites_views(states@)[k]]
            0 <= k < states@.len() ==> composite_set_member(
                composites_views(r@),
                composites_views(states@)[k].to_set(),
            ),
        forall|l: int|
            0 <= l < r@.len() ==> composite_set_member(
                composites_views(states@),
                (#[trigger] composites_views(r@)[l]).to_set(),
            ),
{
    let mut r: Vec<Vec<u32>> = Vec::new();
    let mut i: usize = 0;
    while i < states.len()
        invariant
            i <= states@.len(),
            canonical_list(composites_views(r@)),
            forall|k: int|
                #![trigger composites_views(states@)[k]]
                0 <= k < i ==> composite_set_member(
                    composites_views(r@),
                    composites_views(states@)[k].to_set(),
                ),
            forall|l: int|
                0 <= l < r@.len() ==> composite_set_member(
                    composites_views(states@),
                    (#[trigger] composites_views(r@)[l]).to_set(),
                ),
        decreases states@.len() - i,
    {
        let cq = crate::sets::canonicalize(&states[i]);
        let ghost old_views = composites_views(r@);
        proof {
            assert(composites_views(states@)[i as int] == states@[i as int]@);
        }
        if !contains_composite(&r, &cq) {
            r.push(cq);
            proof {
                assert(composites_views(r@) =~= old_views.push(cq@));
                assert(forall|l: int|
                    0 <= l < old_views.len() ==> composites_views(r@)[l] == old_views[l]);
                assert(composites_views(r@)[old_views.len() as int] == cq@);
                assert forall|k2: int, l2: int|
                    0 <= k2 < l2 < composites_views(r@).len() implies composites_views(r@)[k2]
                    != composites_views(r@)[l2] by {
                    if l2 == composites_views(r@).len() - 1 {
                        assert(!composite_member(old_views, cq@));
                        assert(old_views[k2] != cq@);
                    }
                }
                assert forall|s: Set<u32>| composite_set_member(old_views, s)
                    implies composite_set_member(composites_views(r@), s) by {
                    let l = choose|l: int|
                        0 <= l < old_views.len() && (#[trigger] old_views[l]).to_set() == s;
                    assert(composites_views(r@)[l].to_set() == s);
                }
                assert(composite_set_member(composites_views(r@), cq@.to_set()));
            }
        } else {
            proof {
                let l = choose|l: int| 0 <= l < old_views.len() && #[trigger] old_views[l] == cq@;
                assert(composites_views(r@)[l].to_set() == composites_views(
                    states@,
                )[i as int].to_set());
                assert(composite_set_member(
                    composites_views(r@),
                    composites_views(states@)[i as int].to_set(),
                ));
            }
        }
        i += 1;
    }
    r
}

/// Append to `base` composite states with the given contents.
pub fn extend_composites(base: Vec<Vec<u32>>, more: &Vec<Vec<u32>>) -> (r: Vec<Vec<u32>>)
    ensures
        composites_views(r@) == composites_views(base@) + composites_views(more@),
{
    let ghost base_views = composites_views(base@);
    let mut r = base;
    let mut l: usize = 0;
    while l < more.len()
        invariant
            l <= more@.len(),
            r@.len() == base_views.len() + l,
            forall|j: int|
                0 <= j < base_views.len() ==> #[trigger] r@[j]@ == base_views[j],
            forall|j: int|
                base_views.len() <= j < r@.len() ==> #[trigger] r@[j]@ == composites_views(
                    more@,
                )[j - base_views.len()],
        decreases more@.len() - l,
    {
        let ghost prev = r@;
        r.push(copy_vec(&more[l]));
        proof {
            assert(forall|j: int| 0 <= j < prev.len() ==> r@[j] == prev[j]);
            assert(r@[prev.len() as int]@ == more@[l as int]@);
            assert(composites_views(more@)[l as int] == more@[l as int]@);
        }
        l += 1;
    }
    proof {
        assert forall|j: int|
            0 <= j < composites_views(r@).len() implies #[trigger] composites_views(r@)[j] == (
        base_views + composites_views(more@))[j] by {
            assert(composites_views(r@)[j] == r@[j]@);
        }
        assert(composites_views(r@) =~= base_views + composites_views(more@));
    }
    r
}

pub fn contains_composite(list: &Vec<Vec<u32>>, q: &Vec<u32>) -> (r: bool)
    ensures
        r == composite_member(composites_views(list@), q@),
{
    let mut i: usize = 0;
    while i < list.len()
        invariant
            i <= list.len(),
            forall|j: int| 0 <= j < i ==> #[trigger] list@[j]@ != q@,
        decreases list.len() - i,
    {
        if crate::sets::vec_u32_eq(&list[i], q) {
            proof {
                assert(composites_views(list@)[i as int] == q@);
            }
            return true;
        }
        i += 1;
    }
    proof {
        assert forall|j: int| 0 <= j < list@.len()
            implies #[trigger] composites_views(list@)[j] != q@ by {
            assert(list@[j]@ != q@);
        }
    }
    false
}

/// A rulebook over composite states.
pub struct DFARulebook {
    pub rules: Vec<FARule<Vec<u32>>>,
}

impl DFARulebook {
    pub fn new(rules: Vec<FARule<Vec<u32>>>) -> (r: DFARulebook)
        ensures
            r.rules@ == rules@,
    {
        DFARulebook { rules }
    }

    pub fn rule_for(&self, state: &Vec<u32>, character: char) -> (r: &FARule<Vec<u32>>)
        requires
            cfirst_match(crules_view(self.rules@), state@, character).is_some(),
        ensures
            Some(crule_of(*r)) == cfirst_match(crules_view(self.rules@), state@, character),
    {
        let ghost crules = crules_view(self.rules@);
        let mut i: usize = 0;
        while i < self.rules.len()
            invariant
                i <= self.rules@.len(),
                crules == crules_view(self.rules@),
                cfirst_match(crules, state@, character) == cfirst_match_from(
                    crules,
                    state@,
                    character,
                    i as int,
                ),
                cfirst_match(crules, state@, character).is_some(),
            decreases self.rules@.len() - i,
        {
            if self.rules[i].is_applied_to(state, character) {
                proof {
                    assert(capplies(crules[i as int], state@, character));
                }
                return &self.rules[i];
            }
            proof {
                assert(!capplies(crules[i as int], state@, character));
            }
            i += 1;
        }
        proof {
            assert(cfirst_match_from(crules, state@, character, crules.len() as int) is None);
            assert(false);
        }
        unreached()
    }

    pub fn next_state(&self, state: &Vec<u32>, character: char) -> (r: Vec<u32>)
        requires
            cdfa_step(crules_view(self.rules@), state@, character).is_some(),
        ensures
            Some(r@) == cdfa_step(crules_view(self.rules@), state@, character),
    {
        copy_vec(self.rule_for(state, character).follow())
    }
}

impl Clone for DFARulebook {
    fn clone(&self) -> (r: DFARulebook)
        ensures
            crules_view(r.rules@) == crules_view(self.rules@),
    {
        DFARulebook { rules: copy_crules(&self.rules) }
    }
}

/// A running determinised automaton.
struct DFA {
    current_state: Vec<u32>,
    accept_states: Vec<Vec<u32>>,
    rulebook: DFARulebook,
}

impl DFA {
    fn is_accept(&self) -> (r: bool)
        ensures
            r == composite_member(composites_views(self.accept_states@), self.current_state@),
    {
        contains_composite(&self.accept_states, &self.current_state)
    }

    fn read_character(&mut self, character: char)
        requires
            cdfa_step(
                crules_view(old(self).rulebook.rules@),
                old(self).current_state@,
                character,
            ).is_some(),
        ensures
            crules_view(final(self).rulebook.rules@) == crules_view(old(self).rulebook.rules@),
            composites_views(final(self).accept_states@) == composites_views(
                old(self).accept_states@,
            ),
            Some(final(self).current_state@) == cdfa_step(
                crules_view(old(self).rulebook.rules@),
                old(self).current_state@,
                character,
            ),
    {
        self.current_state = self.rulebook.next_state(&self.current_state, character);
    }

    fn read_string(&mut self, string: &str)
        requires
            cdfa_run(
                crules_view(old(self).rulebook.rules@),
                old(self).current_state@,
                string@,
            ).is_some(),
        ensures
            crules_view(final(self).rulebook.rules@) == crules_view(old(self).rulebook.rules@),
            composites_views(final(self).accept_states@) == composites_views(
                old(self).accept_states@,
            ),
            Some(final(self).current_state@) == cdfa_run(
                crules_view(old(self).rulebook.rules@),
                old(self).current_state@,
                string@,
            ),
    {
        let ghost crules = crules_view(self.rulebook.rules@);
        let ghost w = string@;
        let ghost s0 = self.current_state@;
        let n = string.unicode_len();
        let mut i: usize = 0;
        proof {
            assert(w.skip(0) =~= w);
        }
        while i < n
            invariant
                i <= n,
                n == w.len(),
                w == string@,
                crules_view(self.rulebook.rules@) == crules,
                composites_views(self.accept_states@) == composites_views(
                    old(self).accept_states@,
                ),
                cdfa_run(crules, s0, w) == cdfa_run(crules, self.current_state@, w.skip(i as int)),
                cdfa_run(crules, s0, w).is_some(),
            decreases n - i,
        {
            let c = string.get_char(i);
            proof {
                assert(w.skip(i as int)[0] == w[i as int]);
            }
            self.read_character(c);
            proof {
                assert(w.skip(i as int).drop_first() =~= w.skip(i + 1));
            }
            i += 1;
        }
        proof {
            assert(w.skip(w.len() as int) =~= Seq::<char>::empty());
        }
    }
}

/// An immutable determinised-automaton description.
pub struct DFADesign {
    pub current_state: Vec<u32>,
    pub accept_states: Vec<Vec<u32>>,
    pub rulebook: DFARulebook,
}

impl DFADesign {
    pub fn new(arg: (Vec<u32>, Vec<Vec<u32>>, DFARulebook)) -> (r: DFADesign)
        ensures
            r.current_state@ == arg.0@,
            r.accept_states@ == arg.1@,
            r.rulebook.rules@ == arg.2.rules@,
    {
        let (current_state, accept_states, rulebook) = arg;
        DFADesign { current_state, accept_states, rulebook }
    }

    fn to_dfa(&self) -> (r: DFA)
        ensures
            r.current_state@ == self.current_state@,
            composites_views(r.accept_states@) == composites_views(self.accept_states@),
            crules_view(r.rulebook.rules@) == crules_view(self.rulebook.rules@),
    {
        DFA {
            current_state: copy_vec(&self.current_state),
            accept_states: copy_composites(&self.accept_states),
            rulebook: self.rulebook.clone(),
        }
    }

    /// Whether the determinised automaton accepts `string`; the run must not
    /// get stuck.
    pub fn is_accept(&self, string: &str) -> (r: bool)
        requires
            cdfa_run(
                crules_view(self.rulebook.rules@),
                self.current_state@,
                string@,
            ).is_some(),
        ensures
            r == cdfa_design_accepts(*self, string@),
    {
        let mut dfa = self.to_dfa();
        dfa.read_string(string);
        dfa.is_accept()
    }
}

} // verus!
