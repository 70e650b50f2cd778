//! Nondeterministic finite automata with free (ε) moves.
//!
//! The observable current state of a running NFA is always the ε-closure of
//! the tracked raw set. The closure is defined here as the union of all
//! finitely-many-step ε-reachability stages; it is monotone and idempotent
//! (`lemma_closure_monotone`, `lemma_closure_idempotent`), and the executable
//! `follow_free_moves` computes it as a growing fixed point.

use vstd::prelude::*;
use crate::fa_rule::FARule;
use crate::sets::{
    canonicalize, copy_vec, sorted_insert, strictly_sorted, vec_contains, vec_intersects,
    vec_subset, sets_intersect,
};
use vstd::set_lib::lemma_len_subset;
use vstd::seq_lib::seq_to_set_is_finite;
use vstd::string::StrSliceExecFns;

verus! {

/// The marker for a silent transition; never part of an alphabet.
pub const FREE_MOVE: char = '\x00';

/// States reachable from `states` by exactly one rule labelled `c`.
pub open spec fn next_states_set(rules: Seq<FARule<u32>>, states: Set<u32>, c: char) -> Set<u32> {
    Set::new(
        |t: u32|
            exists|i: int|
                0 <= i < rules.len() && states.contains(#[trigger] rules[i].state)
                    && rules[i].character == c && rules[i].next_state == t,
    )
}

/// Every state a rule of the book can move to.
pub open spec fn rule_targets(rules: Seq<FARule<u32>>) -> Set<u32> {
    rules.map_values(|r: FARule<u32>| r.next_state).to_set()
}

/// The rules of the book that apply to `(state, c)`, kept in book order.
pub open spec fn applying_rules(rules: Seq<FARule<u32>>, state: u32, c: char) -> Seq<FARule<u32>>
    decreases rules.len(),
{
    if rules.len() == 0 {
        Seq::empty()
    } else if rules.last().spec_applies(state, c) {
        applying_rules(rules.drop_last(), state, c).push(rules.last())
    } else {
        applying_rules(rules.drop_last(), state, c)
    }
}

/// One stage of ε-reachability: the set together with its ε-successors.
pub open spec fn eps_step(rules: Seq<FARule<u32>>, s: Set<u32>) -> Set<u32> {
    s.union(next_states_set(rules, s, FREE_MOVE))
}

/// `n` stages of ε-reachability from `s`.
pub open spec fn reach_n(rules: Seq<FARule<u32>>, s: Set<u32>, n: nat) -> Set<u32>
    decreases n,
{
    if n == 0 {
        s
    } else {
        eps_step(rules, reach_n(rules, s, (n - 1) as nat))
    }
}

/// The ε-closure (free-move closure) of `s`: everything some finite number of
/// ε moves can reach from `s`.
pub open spec fn eps_closure(rules: Seq<FARule<u32>>, s: Set<u32>) -> Set<u32> {
    Set::new(|t: u32| exists|n: nat| reach_n(rules, s, n).contains(t))
}

/// A set already holding all its ε-successors.
pub open spec fn closed_set(rules: Seq<FARule<u32>>, s: Set<u32>) -> bool {
    eps_closure(rules, s) == s
}

/// Reading `c` from the ε-closed set `s`: follow the labelled rules, then
/// close again.
pub open spec fn nfa_step_set(rules: Seq<FARule<u32>>, s: Set<u32>, c: char) -> Set<u32> {
    eps_closure(rules, next_states_set(rules, s, c))
}

/// The ε-closed set reached from the ε-closed set `s` after reading `w`.
pub open spec fn nfa_run(rules: Seq<FARule<u32>>, s: Set<u32>, w: Seq<char>) -> Set<u32>
    decreases w.len(),
{
    if w.len() == 0 {
        s
    } else {
        nfa_run(rules, nfa_step_set(rules, s, w[0]), w.drop_first())
    }
}

/// The two sets share a state.
pub open spec fn set_intersects(a: Set<u32>, b: Set<u32>) -> bool {
    exists|x: u32| a.contains(x) && b.contains(x)
}

/// Every symbol a rule of the book carries, the free-move marker left out.
pub open spec fn alphabet_spec(rules: Seq<FARule<u32>>) -> Set<char> {
    Set::new(
        |c: char|
            c != FREE_MOVE && exists|i: int| 0 <= i < rules.len() && #[trigger] rules[i].character
                == c,
    )
}

/// Every character of `w` lies in `alpha`.
pub open spec fn chars_in(w: Seq<char>, alpha: Set<char>) -> bool {
    forall|i: int| 0 <= i < w.len() ==> alpha.contains(#[trigger] w[i])
}

proof fn lemma_next_states_monotone(rules: Seq<FARule<u32>>, a: Set<u32>, b: Set<u32>, c: char)
    requires
        a.subset_of(b),
    ensures
        next_states_set(rules, a, c).subset_of(next_states_set(rules, b, c)),
{
}

proof fn lemma_reach_monotone_base(rules: Seq<FARule<u32>>, a: Set<u32>, b: Set<u32>, n: nat)
    requires
        a.subset_of(b),
    ensures
        reach_n(rules, a, n).subset_of(reach_n(rules, b, n)),
    decreases n,
{
    if n > 0 {
        lemma_reach_monotone_base(rules, a, b, (n - 1) as nat);
        lemma_next_states_monotone(
            rules,
            reach_n(rules, a, (n - 1) as nat),
            reach_n(rules, b, (n - 1) as nat),
            FREE_MOVE,
        );
    }
}

/// The closure contains its base set.
pub proof fn lemma_closure_contains_base(rules: Seq<FARule<u32>>, s: Set<u32>)
    ensures
        s.subset_of(eps_closure(rules, s)),
{
    assert forall|t: u32| s.contains(t) implies eps_closure(rules, s).contains(t) by {
        assert(reach_n(rules, s, 0).contains(t));
    }
}

/// The ε-closure is monotone: a larger base set has a larger closure.
pub proof fn lemma_closure_monotone(rules: Seq<FARule<u32>>, a: Set<u32>, b: Set<u32>)
    requires
        a.subset_of(b),
    ensures
        eps_closure(rules, a).subset_of(eps_closure(rules, b)),
{
    assert forall|t: u32| eps_closure(rules, a).contains(t) implies eps_closure(
        rules,
        b,
    ).contains(t) by {
        let n = choose|n: nat| reach_n(rules, a, n).contains(t);
        lemma_reach_monotone_base(rules, a, b, n);
        assert(reach_n(rules, b, n).contains(t));
    }
}

/// The closure holds every ε-successor of itself.
pub proof fn lemma_closure_closed(rules: Seq<FARule<u32>>, s: Set<u32>)
    ensures
        eps_step(rules, eps_closure(rules, s)).subset_of(eps_closure(rules, s)),
{
    let cl = eps_closure(rules, s);
    assert forall|t: u32| eps_step(rules, cl).contains(t) implies cl.contains(t) by {
        if !cl.contains(t) {
            // then t is an ε-successor of some state reached in n stages,
            // so t is reached in n + 1 stages
            assert(next_states_set(rules, cl, FREE_MOVE).contains(t));
            let i = choose|i: int|
                0 <= i < rules.len() && cl.contains(#[trigger] rules[i].state)
                    && rules[i].character == FREE_MOVE && rules[i].next_state == t;
            let n = choose|n: nat| reach_n(rules, s, n).contains(rules[i].state);
            assert(next_states_set(rules, reach_n(rules, s, n), FREE_MOVE).contains(t));
            assert(reach_n(rules, s, n + 1).contains(t));
        }
    }
}

/// A set that contains the base and its own ε-successors contains the
/// closure: the closure is the least such set.
pub proof fn lemma_closed_contains_closure(rules: Seq<FARule<u32>>, s: Set<u32>, c: Set<u32>)
    requires
        s.subset_of(c),
        eps_step(rules, c).subset_of(c),
    ensures
        eps_closure(rules, s).subset_of(c),
{
    assert forall|t: u32| eps_closure(rules, s).contains(t) implies c.contains(t) by {
        let n = choose|n: nat| reach_n(rules, s, n).contains(t);
        lemma_reach_below_closed(rules, s, c, n);
    }
}

proof fn lemma_reach_below_closed(rules: Seq<FARule<u32>>, s: Set<u32>, c: Set<u32>, n: nat)
    requires
        s.subset_of(c),
        eps_step(rules, c).subset_of(c),
    ensures
        reach_n(rules, s, n).subset_of(c),
    decreases n,
{
    if n > 0 {
        lemma_reach_below_closed(rules, s, c, (n - 1) as nat);
        lemma_next_states_monotone(rules, reach_n(rules, s, (n - 1) as nat), c, FREE_MOVE);
    }
}

/// Closing twice closes no further: the ε-closure is idempotent.
pub proof fn lemma_closure_idempotent(rules: Seq<FARule<u32>>, s: Set<u32>)
    ensures
        eps_closure(rules, eps_closure(rules, s)) == eps_closure(rules, s),
{
    let cl = eps_closure(rules, s);
    lemma_closure_contains_base(rules, cl);
    lemma_closure_closed(rules, s);
    lemma_closed_contains_closure(rules, cl, cl);
    assert(eps_closure(rules, cl) =~= cl);
}

/// The closure stays inside the base set and the rule targets, so it is
/// finite whenever the base set is.
pub proof fn lemma_closure_bounded(rules: Seq<FARule<u32>>, s: Set<u32>)
    ensures
        eps_closure(rules, s).subset_of(s.union(rule_targets(rules))),
        s.finite() ==> eps_closure(rules, s).finite(),
{
    let bound = s.union(rule_targets(rules));
    assert forall|t: u32| eps_closure(rules, s).contains(t) implies bound.contains(t) by {
        let n = choose|n: nat| reach_n(rules, s, n).contains(t);
        lemma_reach_bounded(rules, s, n);
    }
    if s.finite() {
        seq_to_set_is_finite(rules.map_values(|r: FARule<u32>| r.next_state));
        lemma_len_subset(eps_closure(rules, s), bound);
    }
}

proof fn lemma_reach_bounded(rules: Seq<FARule<u32>>, s: Set<u32>, n: nat)
    ensures
        reach_n(rules, s, n).subset_of(s.union(rule_targets(rules))),
    decreases n,
{
    if n > 0 {
        lemma_reach_bounded(rules, s, (n - 1) as nat);
        assert forall|t: u32|
            next_states_set(rules, reach_n(rules, s, (n - 1) as nat), FREE_MOVE).contains(t)
            implies rule_targets(rules).contains(t) by {
            let i = choose|i: int|
                0 <= i < rules.len() && reach_n(rules, s, (n - 1) as nat).contains(
                    #[trigger] rules[i].state,
                ) && rules[i].character == FREE_MOVE && rules[i].next_state == t;
            assert(rules.map_values(|r: FARule<u32>| r.next_state)[i] == t);
            assert(rules.map_values(|r: FARule<u32>| r.next_state).contains(t));
        }
    }
}

/// Any set of labelled successors lies among the rule targets.
pub proof fn lemma_next_states_bounded(rules: Seq<FARule<u32>>, s: Set<u32>, c: char)
    ensures
        next_states_set(rules, s, c).subset_of(rule_targets(rules)),
        next_states_set(rules, s, c).finite(),
{
    assert forall|t: u32| next_states_set(rules, s, c).contains(t) implies rule_targets(
        rules,
    ).contains(t) by {
        let i = choose|i: int|
            0 <= i < rules.len() && s.contains(#[trigger] rules[i].state) && rules[i].character == c
                && rules[i].next_state == t;
        assert(rules.map_values(|r: FARule<u32>| r.next_state)[i] == t);
        assert(rules.map_values(|r: FARule<u32>| r.next_state).contains(t));
    }
    seq_to_set_is_finite(rules.map_values(|r: FARule<u32>| r.next_state));
    lemma_len_subset(next_states_set(rules, s, c), rule_targets(rules));
}

/// A rulebook that may hold several rules per pair and free moves.
pub struct NFARulebook {
    pub rules: Vec<FARule<u32>>,
}

impl NFARulebook {
    pub fn build(args: Vec<(u32, char, u32)>) -> (r: NFARulebook)
        ensures
            r.rules@.len() == args@.len(),
            forall|i: int|
                0 <= i < args@.len() ==> r.rules@[i] == (FARule {
                    state: args@[i].0,
                    character: args@[i].1,
                    next_state: args@[i].2,
                }),
    {
        let mut rules: Vec<FARule<u32>> = Vec::new();
        let mut i: usize = 0;
        while i < args.len()
            invariant
                i <= args.len(),
                rules@.len() == i,
                forall|j: int|
                    0 <= j < i ==> rules@[j] == (FARule {
                        state: args@[j].0,
                        character: args@[j].1,
                        next_state: args@[j].2,
                    }),
            decreases args.len() - i,
        {
            rules.push(FARule::new(args[i]));
            i += 1;
        }
        NFARulebook { rules }
    }

    pub fn rules(&self) -> (r: &Vec<FARule<u32>>)
        ensures
            r@ == self.rules@,
    {
        &self.rules
    }

    /// All states one matching rule leads to from some member of `states`,
    /// as a canonical vector.
    pub fn next_states(&self, states: &Vec<u32>, character: char) -> (r: Vec<u32>)
        ensures
            strictly_sorted(r@),
            r@.to_set() == next_states_set(self.rules@, states@.to_set(), character),
    {
        let mut r: Vec<u32> = Vec::new();
        let mut i: usize = 0;
        proof {
            assert(r@.to_set() =~= next_states_set(
                self.rules@.take(0),
                states@.to_set(),
                character,
            ));
        }
        while i < self.rules.len()
            invariant
                i <= self.rules@.len(),
                strictly_sorted(r@),
                r@.to_set() == next_states_set(
                    self.rules@.take(i as int),
                    states@.to_set(),
                    character,
                ),
            decreases self.rules@.len() - i,
        {
            let ghost pre = self.rules@.take(i as int);
            let ghost post = self.rules@.take(i + 1);
            let rule = &self.rules[i];
            if rule.character == character && vec_contains(states, rule.state) {
                sorted_insert(&mut r, rule.next_state);
            }
            proof {
                let s = states@.to_set();
                assert(post.drop_last() =~= pre);
                assert(post.last() == self.rules@[i as int]);
                assert forall|t: u32| next_states_set(post, s, character).contains(t)
                    implies r@.to_set().contains(t) by {
                    let j = choose|j: int|
                        0 <= j < post.len() && s.contains(#[trigger] post[j].state)
                            && post[j].character == character && post[j].next_state == t;
                    if j < i {
                        assert(pre[j] == post[j]);
                        assert(next_states_set(pre, s, character).contains(t));
                    }
                }
                assert forall|t: u32| r@.to_set().contains(t)
                    implies next_states_set(post, s, character).contains(t) by {
                    if next_states_set(pre, s, character).contains(t) {
                        let j = choose|j: int|
                            0 <= j < pre.len() && s.contains(#[trigger] pre[j].state)
                                && pre[j].character == character && pre[j].next_state == t;
                        assert(post[j] == pre[j]);
                    } else {
                        assert(post[i as int] == self.rules@[i as int]);
                    }
                }
                assert(r@.to_set() =~= next_states_set(post, s, character));
            }
            i += 1;
        }
        proof {
            assert(self.rules@.take(self.rules@.len() as int) =~= self.rules@);
        }
        r
    }

    /// The rules that apply to `(state, character)`, in book order.
    pub fn rules_for(&self, state: u32, character: char) -> (r: Vec<FARule<u32>>)
        ensures
            r@ == applying_rules(self.rules@, state, character),
    {
        let mut r: Vec<FARule<u32>> = Vec::new();
        let mut i: usize = 0;
        proof {
            assert(r@ =~= applying_rules(self.rules@.take(0), state, character));
        }
        while i < self.rules.len()
            invariant
                i <= self.rules@.len(),
                r@ == applying_rules(self.rules@.take(i as int), state, character),
            decreases self.rules@.len() - i,
        {
            proof {
                assert(self.rules@.take(i + 1).drop_last() =~= self.rules@.take(i as int));
                assert(self.rules@.take(i + 1).last() == self.rules@[i as int]);
            }
            if self.rules[i].is_applied_to(state, character) {
                r.push(self.rules[i]);
            }
            i += 1;
        }
        proof {
            assert(self.rules@.take(self.rules@.len() as int) =~= self.rules@);
        }
        r
    }

    /// The states those rules lead to, in the same order.
    pub fn follow_rules_for(&self, state: u32, character: char) -> (r: Vec<u32>)
        ensures
            r@ == applying_rules(self.rules@, state, character).map_values(
                |rule: FARule<u32>| rule.next_state,
            ),
    {
        let matching = self.rules_for(state, character);
        let mut r: Vec<u32> = Vec::new();
        let mut i: usize = 0;
        while i < matching.len()
            invariant
                i <= matching@.len(),
                matching@ == applying_rules(self.rules@, state, character),
                r@.len() == i,
                forall|j: int| 0 <= j < i ==> r@[j] == matching@[j].next_state,
            decreases matching@.len() - i,
        {
            r.push(*matching[i].follow());
            i += 1;
        }
        proof {
            assert(r@ =~= matching@.map_values(|rule: FARule<u32>| rule.next_state));
        }
        r
    }

    /// The ε-closure of `states`, as a canonical vector, computed as a
    /// growing fixed point.
    pub fn follow_free_moves(&self, states: &Vec<u32>) -> (r: Vec<u32>)
        ensures
            strictly_sorted(r@),
            r@.to_set() == eps_closure(self.rules@, states@.to_set()),
    {
        let ghost s0 = states@.to_set();
        let ghost cl = eps_closure(self.rules@, s0);
        let mut cur = canonicalize(states);
        proof {
            lemma_closure_contains_base(self.rules@, s0);
            lemma_closure_bounded(self.rules@, s0);
        }
        loop
            invariant
                strictly_sorted(cur@),
                s0.subset_of(cur@.to_set()),
                cur@.to_set().subset_of(cl),
                cl == eps_closure(self.rules@, s0),
                s0 == states@.to_set(),
                cl.finite(),
            decreases cl.len() - cur@.to_set().len(),
        {
            let more = self.next_states(&cur, FREE_MOVE);
            if vec_subset(&more, &cur) {
                proof {
                    assert(eps_step(self.rules@, cur@.to_set()).subset_of(cur@.to_set()));
                    lemma_closed_contains_closure(self.rules@, s0, cur@.to_set());
                    assert(cur@.to_set() =~= cl);
                }
                return cur;
            }
            let ghost before = cur@.to_set();
            proof {
                lemma_len_subset(before, cl);
                // everything newly found stays inside the closure
                lemma_closure_contains_base(self.rules@, s0);
                lemma_next_states_monotone(self.rules@, cur@.to_set(), cl, FREE_MOVE);
                lemma_closure_closed(self.rules@, s0);
            }
            let mut j: usize = 0;
            while j < more.len()
                invariant
                    j <= more@.len(),
                    strictly_sorted(cur@),
                    before.subset_of(cur@.to_set()),
                    cur@.to_set().subset_of(before.union(more@.to_set())),
                    forall|k: int| 0 <= k < j ==> cur@.to_set().contains(#[trigger] more@[k]),
                decreases more@.len() - j,
            {
                sorted_insert(&mut cur, more[j]);
                j += 1;
            }
            proof {
                // strict growth: some newly found state was not yet present
                let x = choose|x: u32| more@.to_set().contains(x) && !before.contains(x);
                let k = choose|k: int| 0 <= k < more@.len() && more@[k] == x;
                assert(cur@.to_set().contains(x));
                assert(more@.to_set().subset_of(eps_step(self.rules@, cl)));
                assert(cur@.to_set().subset_of(cl));
                vstd::set_lib::lemma_len_subset(cur@.to_set(), cl);
                before.lemma_subset_not_in_lt(cur@.to_set(), x);
            }
        }
    }

    /// The alphabet: each symbol some rule carries, once, free moves left
    /// out, in order of first appearance.
    pub fn alphabet(&self) -> (r: Vec<char>)
        ensures
            r@.no_duplicates(),
            r@.to_set() == alphabet_spec(self.rules@),
    {
        let mut r: Vec<char> = Vec::new();
        let mut i: usize = 0;
        proof {
            assert(r@.to_set() =~= alphabet_spec(self.rules@.take(0)));
        }
        while i < self.rules.len()
            invariant
                i <= self.rules@.len(),
                r@.no_duplicates(),
                r@.to_set() == alphabet_spec(self.rules@.take(i as int)),
            decreases self.rules@.len() - i,
        {
            let ghost pre = self.rules@.take(i as int);
            let ghost post = self.rules@.take(i + 1);
            let c = self.rules[i].character;
            let ghost old_r = r@;
            if c != FREE_MOVE && !crate::sets::char_vec_contains(&r, c) {
                r.push(c);
            }
            proof {
                assert(post.drop_last() =~= pre);
                assert(post.last() == self.rules@[i as int]);
                assert forall|d: char| alphabet_spec(post).contains(d)
                    implies r@.to_set().contains(d) by {
                    let j = choose|j: int|
                        0 <= j < post.len() && #[trigger] post[j].character == d;
                    if j < i {
                        assert(pre[j] == post[j]);
                        assert(alphabet_spec(pre).contains(d));
                        assert(old_r.to_set().contains(d));
                        if old_r != r@ {
                            assert(r@ == old_r.push(c));
                            let k = choose|k: int| 0 <= k < old_r.len() && old_r[k] == d;
                            assert(r@[k] == d);
                        }
                    } else {
                        assert(d == self.rules@[i as int].character);
                        if old_r.contains(c) {
                            let k = choose|k: int| 0 <= k < old_r.len() && old_r[k] == c;
                            assert(r@[k] == c);
                        } else {
                            assert(r@ == old_r.push(c));
                            assert(r@[old_r.len() as int] == c);
                        }
                    }
                }
                assert forall|d: char| r@.to_set().contains(d)
                    implies alphabet_spec(post).contains(d) by {
                    if old_r.to_set().contains(d) {
                        let j = choose|j: int|
                            0 <= j < pre.len() && #[trigger] pre[j].character == d;
                        assert(post[j] == pre[j]);
                    } else {
                        assert(d == c);
                        assert(post[i as int].character == c);
                    }
                }
                assert(r@.to_set() =~= alphabet_spec(post));
            }
            i += 1;
        }
        proof {
            assert(self.rules@.take(self.rules@.len() as int) =~= self.rules@);
        }
        r
    }
}

impl Clone for NFARulebook {
    fn clone(&self) -> (r: NFARulebook)
        ensures
            r.rules@ == self.rules@,
    {
        NFARulebook { rules: copy_vec(&self.rules) }
    }
}

/// A running NFA; `current_states` is the raw tracking set, and every
/// observation closes it under free moves first.
pub struct NFA {
    pub current_states: Vec<u32>,
    pub accept_states: Vec<u32>,
    pub rulebook: NFARulebook,
}

impl NFA {
    /// The observable current states: the ε-closure of the raw set, as a
    /// canonical vector.
    pub fn get_current_states(&self) -> (r: Vec<u32>)
        ensures
            strictly_sorted(r@),
            r@.to_set() == eps_closure(self.rulebook.rules@, self.current_states@.to_set()),
    {
        self.rulebook.follow_free_moves(&self.current_states)
    }

    pub fn is_accept(&self) -> (r: bool)
        ensures
            r == set_intersects(
                eps_closure(self.rulebook.rules@, self.current_states@.to_set()),
                self.accept_states@.to_set(),
            ),
    {
        let cur = self.get_current_states();
        let r = vec_intersects(&cur, &self.accept_states);
        proof {
            if sets_intersect(cur@, self.accept_states@) {
                let x = choose|x: u32| cur@.contains(x) && self.accept_states@.contains(x);
                assert(cur@.to_set().contains(x));
            }
            if set_intersects(cur@.to_set(), self.accept_states@.to_set()) {
                let x = choose|x: u32|
                    cur@.to_set().contains(x) && self.accept_states@.to_set().contains(x);
                assert(cur@.contains(x) && self.accept_states@.contains(x));
            }
        }
        r
    }

    pub fn read_character(&mut self, character: char)
        ensures
            final(self).rulebook.rules@ == old(self).rulebook.rules@,
            final(self).accept_states@ == old(self).accept_states@,
            final(self).current_states@.to_set() == next_states_set(
                old(self).rulebook.rules@,
                eps_closure(old(self).rulebook.rules@, old(self).current_states@.to_set()),
                character,
            ),
    {
        let cur = self.get_current_states();
        self.current_states = self.rulebook.next_states(&cur, character);
    }

    pub fn read_string(&mut self, string: &str)
        ensures
            final(self).rulebook.rules@ == old(self).rulebook.rules@,
            final(self).accept_states@ == old(self).accept_states@,
            eps_closure(final(self).rulebook.rules@, final(self).current_states@.to_set())
                == nfa_run(
                old(self).rulebook.rules@,
                eps_closure(old(self).rulebook.rules@, old(self).current_states@.to_set()),
                string@,
            ),
    {
        let ghost rules = self.rulebook.rules@;
        let ghost w = string@;
        let ghost c0 = eps_closure(rules, self.current_states@.to_set());
        let n = string.unicode_len();
        let mut i: usize = 0;
        proof {
            assert(w.skip(0) =~= w);
        }
        while i < n
            invariant
                i <= n,
                n == w.len(),
                w == string@,
                self.rulebook.rules@ == rules,
                self.accept_states@ == old(self).accept_states@,
                nfa_run(rules, eps_closure(rules, self.current_states@.to_set()), w.skip(i as int))
                    == nfa_run(rules, c0, w),
            decreases n - i,
        {
            let c = string.get_char(i);
            proof {
                assert(w.skip(i as int)[0] == w[i as int]);
            }
            let ghost pre_closed = eps_closure(rules, self.current_states@.to_set());
            self.read_character(c);
            proof {
                assert(w.skip(i as int).drop_first() =~= w.skip(i + 1));
                assert(eps_closure(rules, self.current_states@.to_set()) == nfa_step_set(
                    rules,
                    pre_closed,
                    w[i as int],
                ));
            }
            i += 1;
        }
        proof {
            assert(w.skip(w.len() as int) =~= Seq::<char>::empty());
        }
    }
}

/// Whether the design accepts `w`: run from the ε-closed start set and test
/// for a common state with the accept set.
pub open spec fn nfa_design_accepts(d: NFADesign, w: Seq<char>) -> bool {
    set_intersects(
        nfa_run(
            d.rulebook.rules@,
            eps_closure(d.rulebook.rules@, Set::empty().insert(d.start_state)),
            w,
        ),
        d.accept_states@.to_set(),
    )
}

/// An immutable NFA description: start state, accept states, rulebook.
pub struct NFADesign {
    pub start_state: u32,
    pub accept_states: Vec<u32>,
    pub rulebook: NFARulebook,
}

impl NFADesign {
    pub fn new(arg: (u32, Vec<u32>, NFARulebook)) -> (r: NFADesign)
        ensures
            r.start_state == arg.0,
            r.accept_states@ == arg.1@,
            r.rulebook.rules@ == arg.2.rules@,
    {
        let (start_state, accept_states, rulebook) = arg;
        NFADesign { start_state, accept_states, rulebook }
    }

    pub fn start_state(&self) -> (r: &u32)
        ensures
            *r == self.start_state,
    {
        &self.start_state
    }

    pub fn accept_states(&self) -> (r: &Vec<u32>)
        ensures
            r@ == self.accept_states@,
    {
        &self.accept_states
    }

    pub fn rulebook(&self) -> (r: &NFARulebook)
        ensures
            r.rules@ == self.rulebook.rules@,
    {
        &self.rulebook
    }

    /// A running NFA started at the design's start state.
    pub fn to_nfa(&self) -> (r: NFA)
        ensures
            r.current_states@.to_set() == Set::empty().insert(self.start_state),
            r.accept_states@ == self.accept_states@,
            r.rulebook.rules@ == self.rulebook.rules@,
    {
        let mut current_states: Vec<u32> = Vec::new();
        current_states.push(self.start_state);
        proof {
            assert(current_states@[0] == self.start_state);
            assert(current_states@.len() == 1);
            assert(current_states@.to_set() =~= Set::empty().insert(self.start_state));
        }
        NFA {
            current_states,
            accept_states: copy_vec(&self.accept_states),
            rulebook: self.rulebook.clone(),
        }
    }

    /// A running NFA started at a chosen raw set of states; the subset
    /// construction probes the design with it.
    pub fn to_nfa_simulation(&self, current_states: Vec<u32>) -> (r: NFA)
        ensures
            r.current_states@ == current_states@,
            r.accept_states@ == self.accept_states@,
            r.rulebook.rules@ == self.rulebook.rules@,
    {
        NFA {
            current_states,
            accept_states: copy_vec(&self.accept_states),
            rulebook: self.rulebook.clone(),
        }
    }

    pub fn is_accept(&self, string: &str) -> (r: bool)
        ensures
            r == nfa_design_accepts(*self, string@),
    {
        let mut nfa = self.to_nfa();
        nfa.read_string(string);
        nfa.is_accept()
    }
}

/// The sets the composite states of the list stand for.
pub open spec fn composite_sets(qs: Seq<Seq<u32>>) -> Set<Set<u32>> {
    qs.map_values(|q: Seq<u32>| q.to_set()).to_set()
}

/// Every atomic state occurring in some composite state of the list.
pub open spec fn atoms(qs: Seq<Seq<u32>>) -> Set<u32>
    decreases qs.len(),
{
    if qs.len() == 0 {
        Set::empty()
    } else {
        atoms(qs.drop_last()).union(qs.last().to_set())
    }
}

/// Every atomic state a rule of the book mentions.
pub open spec fn rule_atoms(rules: Seq<FARule<u32>>) -> Set<u32> {
    rules.map_values(|r: FARule<u32>| r.state).to_set().union(rule_targets(rules))
}

/// The atomic-state universe the subset construction moves in.
pub open spec fn discover_universe(rules: Seq<FARule<u32>>, qs: Seq<Seq<u32>>) -> Set<u32> {
    atoms(qs).union(rule_atoms(rules))
}

use crate::dfa_from_nfa::{CRule, composite_member, crule_of, crules_view, cfirst_match,
    cfirst_match_from, cdfa_step, cdfa_run, capplies, composites_views, canonical_list,
    canonical_dedup, extend_composites, contains_composite, composite_set_member};

/// The discovered composite rules fit the NFA: every discovered state has a
/// rule for every alphabet symbol, and every rule carries a discovered
/// source, an alphabet symbol, and as target the canonical form of the set
/// the NFA moves to — which is itself discovered.
#[verifier::opaque]
pub open spec fn sim_rules_ok(
    nrules: Seq<FARule<u32>>,
    qs: Seq<Seq<u32>>,
    crules: Seq<CRule>,
) -> bool {
    (forall|k: int, c: char|
        #![trigger qs[k], alphabet_spec(nrules).contains(c)]
        0 <= k < qs.len() && alphabet_spec(nrules).contains(c) ==> exists|m: int|
            0 <= m < crules.len() && (#[trigger] crules[m]).state == qs[k] && crules[m].character
                == c) && (forall|m: int|
        0 <= m < crules.len() ==> {
            let cr = #[trigger] crules[m];
            composite_member(qs, cr.state) && alphabet_spec(nrules).contains(cr.character)
                && strictly_sorted(cr.next_state) && cr.next_state.to_set() == nfa_step_set(
                nrules,
                eps_closure(nrules, cr.state.to_set()),
                cr.character,
            ) && composite_member(qs, cr.next_state)
        })
}

/// Some rule of the list goes out of `q` on `c`.
pub open spec fn rule_covered(rules: Seq<FARule<Vec<u32>>>, q: Seq<u32>, c: char) -> bool {
    exists|m: int|
        0 <= m < rules.len() && crule_of(#[trigger] rules[m]).state == q && crule_of(
            rules[m],
        ).character == c
}

/// Some rule of the list has `t` as its target.
pub open spec fn is_rule_target(rules: Seq<FARule<Vec<u32>>>, t: Seq<u32>) -> bool {
    exists|m2: int| 0 <= m2 < rules.len() && crule_of(#[trigger] rules[m2]).next_state == t
}

proof fn lemma_atoms_member(qs: Seq<Seq<u32>>, x: u32)
    ensures
        atoms(qs).contains(x) <==> exists|k: int| 0 <= k < qs.len() && (#[trigger] qs[k]).contains(
            x,
        ),
        atoms(qs).finite(),
    decreases qs.len(),
{
    seq_to_set_is_finite(Seq::<u32>::empty());
    if qs.len() > 0 {
        lemma_atoms_member(qs.drop_last(), x);
        seq_to_set_is_finite(qs.last());
        if atoms(qs).contains(x) {
            if atoms(qs.drop_last()).contains(x) {
                let k = choose|k: int|
                    0 <= k < qs.drop_last().len() && (#[trigger] qs.drop_last()[k]).contains(x);
                assert(qs[k].contains(x));
            } else {
                assert(qs[qs.len() - 1].contains(x));
            }
        }
        if exists|k: int| 0 <= k < qs.len() && (#[trigger] qs[k]).contains(x) {
            let k = choose|k: int| 0 <= k < qs.len() && (#[trigger] qs[k]).contains(x);
            if k < qs.len() - 1 {
                assert(qs.drop_last()[k].contains(x));
            } else {
                assert(qs.last().to_set().contains(x));
            }
        }
    }
}

proof fn lemma_composite_sets_member(qs: Seq<Seq<u32>>, s: Set<u32>)
    ensures
        composite_sets(qs).contains(s) <==> exists|k: int|
            0 <= k < qs.len() && (#[trigger] qs[k]).to_set() == s,
        composite_sets(qs).finite(),
{
    let mapped = qs.map_values(|q: Seq<u32>| q.to_set());
    seq_to_set_is_finite(mapped);
    if composite_sets(qs).contains(s) {
        let k = choose|k: int| 0 <= k < mapped.len() && mapped[k] == s;
        assert(qs[k].to_set() == s);
    }
    if exists|k: int| 0 <= k < qs.len() && (#[trigger] qs[k]).to_set() == s {
        let k = choose|k: int| 0 <= k < qs.len() && (#[trigger] qs[k]).to_set() == s;
        assert(mapped[k] == s);
        assert(mapped.contains(s));
    }
}

/// The composite sets of a list are subsets of its universe, so the list can
/// only grow to the (finite) family of subsets of the universe.
proof fn lemma_composite_sets_in_powerset(rules: Seq<FARule<u32>>, qs: Seq<Seq<u32>>)
    ensures
        composite_sets(qs).subset_of(crate::sets::powerset(discover_universe(rules, qs))),
        composite_sets(qs).len() <= crate::sets::powerset(discover_universe(rules, qs)).len(),
        crate::sets::powerset(discover_universe(rules, qs)).finite(),
        composite_sets(qs).finite(),
        discover_universe(rules, qs).finite(),
{
    lemma_composite_sets_member(qs, Set::empty());
    assert forall|s: Set<u32>| composite_sets(qs).contains(s)
        implies crate::sets::powerset(discover_universe(rules, qs)).contains(s) by {
        lemma_composite_sets_member(qs, s);
        let k = choose|k: int| 0 <= k < qs.len() && (#[trigger] qs[k]).to_set() == s;
        assert forall|x: u32| s.contains(x) implies discover_universe(rules, qs).contains(x) by {
            lemma_atoms_member(qs, x);
            assert(qs[k].contains(x));
        }
    }
    lemma_atoms_member(qs, 0);
    seq_to_set_is_finite(rules.map_values(|r: FARule<u32>| r.state));
    seq_to_set_is_finite(rules.map_values(|r: FARule<u32>| r.next_state));
    crate::sets::lemma_powerset_finite(discover_universe(rules, qs));
    lemma_len_subset(composite_sets(qs), crate::sets::powerset(discover_universe(rules, qs)));
}

/// A first match exists as soon as any rule applies, and whatever it returns
/// applies and is one of the rules.
proof fn lemma_cfirst_match_finds(crules: Seq<CRule>, q: Seq<u32>, c: char, j: int)
    requires
        0 <= j < crules.len(),
        capplies(crules[j], q, c),
    ensures
        cfirst_match(crules, q, c).is_some(),
        capplies(cfirst_match(crules, q, c).unwrap(), q, c),
        exists|m: int| 0 <= m < crules.len() && #[trigger] crules[m] == cfirst_match(
            crules,
            q,
            c,
        ).unwrap(),
{
    lemma_cfirst_match_finds_from(crules, q, c, j, 0);
}

proof fn lemma_cfirst_match_finds_from(crules: Seq<CRule>, q: Seq<u32>, c: char, j: int, i: int)
    requires
        0 <= i <= j < crules.len(),
        capplies(crules[j], q, c),
    ensures
        cfirst_match_from(crules, q, c, i).is_some(),
        capplies(cfirst_match_from(crules, q, c, i).unwrap(), q, c),
        exists|m: int| 0 <= m < crules.len() && #[trigger] crules[m] == cfirst_match_from(
            crules,
            q,
            c,
            i,
        ).unwrap(),
    decreases crules.len() - i,
{
    if capplies(crules[i], q, c) {
        assert(crules[i] == cfirst_match_from(crules, q, c, i).unwrap());
    } else {
        lemma_cfirst_match_finds_from(crules, q, c, j, i + 1);
    }
}

/// One step of the correspondence: from a discovered, canonical, ε-closed
/// composite state, the determinised automaton steps to the canonical form
/// of the set the NFA steps to.
proof fn lemma_sim_step(
    nrules: Seq<FARule<u32>>,
    crules: Seq<CRule>,
    qs: Seq<Seq<u32>>,
    q: Seq<u32>,
    c: char,
)
    requires
        sim_rules_ok(nrules, qs, crules),
        composite_member(qs, q),
        closed_set(nrules, q.to_set()),
        alphabet_spec(nrules).contains(c),
    ensures
        cdfa_step(crules, q, c).is_some(),
        cdfa_step(crules, q, c).unwrap().to_set() == nfa_step_set(nrules, q.to_set(), c),
        composite_member(qs, cdfa_step(crules, q, c).unwrap()),
        strictly_sorted(cdfa_step(crules, q, c).unwrap()),
        closed_set(nrules, cdfa_step(crules, q, c).unwrap().to_set()),
{
    reveal(sim_rules_ok);
    let k = choose|k: int| 0 <= k < qs.len() && #[trigger] qs[k] == q;
    let m = choose|m: int|
        0 <= m < crules.len() && (#[trigger] crules[m]).state == qs[k] && crules[m].character
            == c;
    lemma_cfirst_match_finds(crules, q, c, m);
    let cr = cfirst_match(crules, q, c).unwrap();
    let mi = choose|mi: int| 0 <= mi < crules.len() && #[trigger] crules[mi] == cr;
    let t = cr.next_state;
    assert(t.to_set() == nfa_step_set(nrules, eps_closure(nrules, q.to_set()), c));
    assert(eps_closure(nrules, q.to_set()) == q.to_set());
    lemma_closure_idempotent(nrules, next_states_set(nrules, q.to_set(), c));
    assert(closed_set(nrules, t.to_set()));
}

/// The heart of the subset construction's correctness: from a discovered,
/// canonical, ε-closed composite state, the determinised automaton runs to
/// exactly the canonical form of the set the NFA runs to, for every word
/// over the alphabet.
pub proof fn lemma_sim_run(
    nrules: Seq<FARule<u32>>,
    crules: Seq<CRule>,
    qs: Seq<Seq<u32>>,
    q: Seq<u32>,
    w: Seq<char>,
)
    requires
        sim_rules_ok(nrules, qs, crules),
        canonical_list(qs),
        composite_member(qs, q),
        strictly_sorted(q),
        closed_set(nrules, q.to_set()),
        chars_in(w, alphabet_spec(nrules)),
    ensures
        cdfa_run(crules, q, w).is_some(),
        cdfa_run(crules, q, w).unwrap().to_set() == nfa_run(nrules, q.to_set(), w),
        composite_member(qs, cdfa_run(crules, q, w).unwrap()),
        strictly_sorted(cdfa_run(crules, q, w).unwrap()),
        closed_set(nrules, cdfa_run(crules, q, w).unwrap().to_set()),
    decreases w.len(),
{
    if w.len() == 0 {
    } else {
        let c = w[0];
        assert(alphabet_spec(nrules).contains(c));
        lemma_sim_step(nrules, crules, qs, q, c);
        let t = cdfa_step(crules, q, c).unwrap();
        assert(chars_in(w.drop_first(), alphabet_spec(nrules))) by {
            assert(forall|i: int|
                0 <= i < w.drop_first().len() ==> #[trigger] w.drop_first()[i] == w[i + 1]);
        }
        lemma_sim_run(nrules, crules, qs, t, w.drop_first());
        assert(cdfa_run(crules, q, w) == cdfa_run(crules, t, w.drop_first()));
        assert(nfa_run(nrules, q.to_set(), w) == nfa_run(
            nrules,
            nfa_step_set(nrules, q.to_set(), c),
            w.drop_first(),
        ));
    }
}

/// Runs the subset construction: explores the composite states the NFA can
/// observe and fits them with deterministic rules.
pub struct NFASimulation {
    pub nfa_design: NFADesign,
}

impl NFASimulation {
    pub fn new(nfa_design: NFADesign) -> (r: NFASimulation)
        ensures
            r.nfa_design.start_state == nfa_design.start_state,
            r.nfa_design.accept_states@ == nfa_design.accept_states@,
            r.nfa_design.rulebook.rules@ == nfa_design.rulebook.rules@,
    {
        NFASimulation { nfa_design }
    }

    /// The canonical composite state the NFA observes after starting the raw
    /// set `states` and reading `character`.
    pub fn next_state(&self, states: &Vec<u32>, character: char) -> (r: Vec<u32>)
        ensures
            strictly_sorted(r@),
            r@.to_set() == nfa_step_set(
                self.nfa_design.rulebook.rules@,
                eps_closure(self.nfa_design.rulebook.rules@, states@.to_set()),
                character,
            ),
    {
        let mut nfa = self.nfa_design.to_nfa_simulation(copy_vec(states));
        nfa.read_character(character);
        nfa.get_current_states()
    }

    /// One rule out of the composite state `states` for every symbol of the
    /// NFA's alphabet.
    pub fn rules_for(&self, states: &Vec<u32>) -> (r: Vec<FARule<Vec<u32>>>)
        ensures
            ({
                let nrules = self.nfa_design.rulebook.rules@;
                &&& (forall|m: int|
                    0 <= m < r@.len() ==> {
                        let cr = crule_of(#[trigger] r@[m]);
                        &&& cr.state == states@
                        &&& alphabet_spec(nrules).contains(cr.character)
                        &&& strictly_sorted(cr.next_state)
                        &&& cr.next_state.to_set() == nfa_step_set(
                            nrules,
                            eps_closure(nrules, states@.to_set()),
                            cr.character,
                        )
                    })
                &&& (forall|c: char|
                    alphabet_spec(nrules).contains(c) ==> exists|m: int|
                        0 <= m < r@.len() && crule_of(#[trigger] r@[m]).character == c)
                &&& (forall|m: int, m2: int|
                    0 <= m < m2 < r@.len() ==> crule_of(#[trigger] r@[m]).character != crule_of(
                        #[trigger] r@[m2],
                    ).character)
            }),
    {
        let ghost nrules = self.nfa_design.rulebook.rules@;
        let alpha = self.nfa_design.rulebook.alphabet();
        let mut r: Vec<FARule<Vec<u32>>> = Vec::new();
        let mut i: usize = 0;
        while i < alpha.len()
            invariant
                i <= alpha@.len(),
                nrules == self.nfa_design.rulebook.rules@,
                alpha@.to_set() == alphabet_spec(nrules),
                r@.len() == i,
                forall|m: int|
                    0 <= m < i ==> {
                        let cr = crule_of(#[trigger] r@[m]);
                        &&& cr.state == states@
                        &&& cr.character == alpha@[m]
                        &&& strictly_sorted(cr.next_state)
                        &&& cr.next_state.to_set() == nfa_step_set(
                            nrules,
                            eps_closure(nrules, states@.to_set()),
                            cr.character,
                        )
                    },
            decreases alpha@.len() - i,
        {
            let c = alpha[i];
            proof {
                assert(alpha@.to_set().contains(alpha@[i as int]));
            }
            let target = self.next_state(states, c);
            r.push(FARule { state: copy_vec(states), character: c, next_state: target });
            i += 1;
        }
        proof {
            assert forall|c: char| alphabet_spec(nrules).contains(c) implies exists|m: int|
                0 <= m < r@.len() && crule_of(#[trigger] r@[m]).character == c by {
                let k = choose|k: int| 0 <= k < alpha@.len() && alpha@[k] == c;
                assert(crule_of(r@[k]).character == c);
            }
            assert forall|m: int| 0 <= m < r@.len() implies alphabet_spec(nrules).contains(
                crule_of(#[trigger] r@[m]).character,
            ) by {
                assert(alpha@.to_set().contains(alpha@[m]));
            }
        }
        r
    }

    /// The fixed point of state discovery: canonicalize the given states,
    /// fit every known state with its rules, and keep going until every rule
    /// target is already known.
    pub fn discover_states_and_rules(&self, states: &Vec<Vec<u32>>) -> (r: (
        Vec<Vec<u32>>,
        Vec<FARule<Vec<u32>>>,
    ))
        ensures
            canonical_list(composites_views(r.0@)),
            sim_rules_ok(
                self.nfa_design.rulebook.rules@,
                composites_views(r.0@),
                crules_view(r.1@),
            ),
            crate::dfa_from_nfa::cdeterministic(crules_view(r.1@)),
            forall|k: int|
                #![trigger composites_views(states@)[k]]
                0 <= k < states@.len() ==> composite_set_member(
                    composites_views(r.0@),
                    composites_views(states@)[k].to_set(),
                ),
        decreases crate::sets::powerset(
            discover_universe(self.nfa_design.rulebook.rules@, composites_views(states@)),
        ).len() - composite_sets(composites_views(states@)).len(),
    {
        let ghost nrules = self.nfa_design.rulebook.rules@;
        let ghost in_views = composites_views(states@);

        let s0 = canonical_dedup(states);
        proof {
            lemma_same_composite_sets(composites_views(s0@), in_views);
            lemma_universe_same(nrules, composites_views(s0@), in_views);
        }
        let rules = self.rules_for_all(&s0);
        let missing = collect_missing(&rules, &s0);

        if missing.len() == 0 {
            proof {
                reveal(sim_rules_ok);
                assert forall|m2: int| 0 <= m2 < rules@.len() implies composite_member(
                    composites_views(s0@),
                    crule_of(#[trigger] rules@[m2]).next_state,
                ) by {
                    assert(composites_views(missing@).len() == 0);
                }
                assert(forall|m2: int|
                    0 <= m2 < rules@.len() ==> crules_view(rules@)[m2] == crule_of(
                        #[trigger] rules@[m2],
                    ));
            }
            return (s0, rules);
        }

        // grow the state list by what was found and run again
        let ghost s0_views = composites_views(s0@);
        let ghost miss_views = composites_views(missing@);
        proof {
            // every missing state is an ε-closed rule target, so it stays
            // inside the rule targets of the NFA
            assert forall|l: int| 0 <= l < miss_views.len() implies (
            #[trigger] miss_views[l]).to_set().subset_of(rule_targets(nrules)) by {
                assert(is_rule_target(rules@, miss_views[l]));
                let m2 = choose|m2: int|
                    0 <= m2 < rules@.len() && crule_of(#[trigger] rules@[m2]).next_state
                        == miss_views[l];
                let cr = crule_of(rules@[m2]);
                let base = next_states_set(nrules, eps_closure(nrules, cr.state.to_set()),
                    cr.character);
                lemma_next_states_bounded(nrules, eps_closure(nrules, cr.state.to_set()),
                    cr.character);
                lemma_closure_bounded(nrules, base);
            }
            lemma_discover_measure(nrules, in_views, s0_views, miss_views);
        }
        let bigger = extend_composites(s0, &missing);
        let r = self.discover_states_and_rules(&bigger);
        proof {
            // every given set is already among the canonical list's sets, and
            // those all persist into the recursion's answer
            assert forall|k2: int|
                #![trigger composites_views(states@)[k2]]
                0 <= k2 < states@.len() implies composite_set_member(
                composites_views(r.0@),
                composites_views(states@)[k2].to_set(),
            ) by {
                assert(composite_set_member(
                    s0_views,
                    composites_views(states@)[k2].to_set(),
                ));
                let l0 = choose|l0: int|
                    0 <= l0 < s0_views.len() && (#[trigger] s0_views[l0]).to_set()
                        == composites_views(states@)[k2].to_set();
                assert(composites_views(bigger@)[l0] == s0_views[l0]);
                assert(composite_set_member(
                    composites_views(r.0@),
                    composites_views(bigger@)[l0].to_set(),
                ));
            }
        }
        r
    }

    /// Determinise the design: discover every observable composite state and
    /// build a deterministic automaton over them. For every word over the
    /// NFA's alphabet, the result never gets stuck and accepts exactly when
    /// the NFA accepts (subset-construction equivalence).
    pub fn to_dfa_design(&self) -> (r: crate::dfa_from_nfa::DFADesign)
        ensures
            crate::dfa_from_nfa::cdeterministic(crules_view(r.rulebook.rules@)),
            forall|w: Seq<char>|
                #![trigger chars_in(w, alphabet_spec(self.nfa_design.rulebook.rules@))]
                chars_in(w, alphabet_spec(self.nfa_design.rulebook.rules@)) ==> {
                    &&& cdfa_run(crules_view(r.rulebook.rules@), r.current_state@, w).is_some()
                    &&& crate::dfa_from_nfa::cdfa_design_accepts(r, w) == nfa_design_accepts(
                        self.nfa_design,
                        w,
                    )
                },
    {
        let ghost nrules = self.nfa_design.rulebook.rules@;
        let ghost na = self.nfa_design.accept_states@;
        let nfa = self.nfa_design.to_nfa();
        let start = nfa.get_current_states();
        let mut seed: Vec<Vec<u32>> = Vec::new();
        seed.push(copy_vec(&start));
        proof {
            assert(composites_views(seed@)[0] == start@);
        }
        let (states, rules) = self.discover_states_and_rules(&seed);
        let ghost qs = composites_views(states@);

        // keep the discovered states that share a state with the accept set
        let mut accept_states: Vec<Vec<u32>> = Vec::new();
        let mut k: usize = 0;
        while k < states.len()
            invariant
                k <= states@.len(),
                qs == composites_views(states@),
                na == self.nfa_design.accept_states@,
                forall|l: int|
                    0 <= l < accept_states@.len() ==> composite_member(
                        qs,
                        #[trigger] composites_views(accept_states@)[l],
                    ) && set_intersects(
                        composites_views(accept_states@)[l].to_set(),
                        na.to_set(),
                    ),
                forall|k2: int|
                    0 <= k2 < k ==> (set_intersects((#[trigger] qs[k2]).to_set(), na.to_set())
                        ==> composite_member(composites_views(accept_states@), qs[k2])),
            decreases states@.len() - k,
        {
            let ghost old_acc = composites_views(accept_states@);
            proof {
                assert(qs[k as int] == states@[k as int]@);
            }
            if vec_intersects(&states[k], self.nfa_design.accept_states()) {
                accept_states.push(copy_vec(&states[k]));
                proof {
                    assert(composites_views(accept_states@) =~= old_acc.push(states@[k as int]@));
                    assert(forall|l: int|
                        0 <= l < old_acc.len() ==> composites_views(accept_states@)[l]
                            == old_acc[l]);
                    assert(composites_views(accept_states@)[old_acc.len() as int] == qs[k as int]);
                    assert forall|t: Seq<u32>| composite_member(old_acc, t)
                        implies composite_member(composites_views(accept_states@), t) by {
                        let l = choose|l: int| 0 <= l < old_acc.len() && #[trigger] old_acc[l] == t;
                        assert(composites_views(accept_states@)[l] == t);
                    }
                    let x = choose|x: u32|
                        states@[k as int]@.contains(x) && na.contains(x);
                    assert(qs[k as int].to_set().contains(x) && na.to_set().contains(x));
                }
            } else {
                proof {
                    if set_intersects(qs[k as int].to_set(), na.to_set()) {
                        let x = choose|x: u32|
                            qs[k as int].to_set().contains(x) && na.to_set().contains(x);
                        assert(states@[k as int]@.contains(x) && na.contains(x));
                    }
                }
            }
            k += 1;
        }

        let r = crate::dfa_from_nfa::DFADesign::new((
            start,
            accept_states,
            crate::dfa_from_nfa::DFARulebook::new(rules),
        ));
        proof {
            let crules = crules_view(r.rulebook.rules@);
            let q0 = r.current_state@;
            let s_start = Set::empty().insert(self.nfa_design.start_state);
            lemma_closure_idempotent(nrules, s_start);
            assert(closed_set(nrules, q0.to_set()));
            // the start state is among the discovered states, canonically
            assert(composite_set_member(qs, composites_views(seed@)[0].to_set()));
            let l0 = choose|l0: int|
                0 <= l0 < qs.len() && (#[trigger] qs[l0]).to_set() == q0.to_set();
            crate::sets::lemma_canonical_unique(qs[l0], q0);
            assert(composite_member(qs, q0));
            assert forall|w: Seq<char>|
                #![trigger chars_in(w, alphabet_spec(self.nfa_design.rulebook.rules@))]
                chars_in(w, alphabet_spec(self.nfa_design.rulebook.rules@)) implies {
                &&& cdfa_run(crules, q0, w).is_some()
                &&& crate::dfa_from_nfa::cdfa_design_accepts(r, w) == nfa_design_accepts(
                    self.nfa_design,
                    w,
                )
            } by {
                lemma_sim_run(nrules, crules, qs, q0, w);
                let qf = cdfa_run(crules, q0, w).unwrap();
                assert(qf.to_set() == nfa_run(nrules, q0.to_set(), w));
                let kf = choose|kf: int| 0 <= kf < qs.len() && #[trigger] qs[kf] == qf;
                if set_intersects(qf.to_set(), na.to_set()) {
                    assert(composite_member(composites_views(r.accept_states@), qf));
                } else {
                    if composite_member(composites_views(r.accept_states@), qf) {
                        let l = choose|l: int|
                            0 <= l < composites_views(r.accept_states@).len()
                                && #[trigger] composites_views(r.accept_states@)[l] == qf;
                        assert(set_intersects(qf.to_set(), na.to_set()));
                    }
                }
            }
        }
        r
    }

    /// One rule per alphabet symbol for every state of the canonical list.
    fn rules_for_all(&self, s0: &Vec<Vec<u32>>) -> (rules: Vec<FARule<Vec<u32>>>)
        requires
            canonical_list(composites_views(s0@)),
        ensures
            ({
                let nrules = self.nfa_design.rulebook.rules@;
                &&& (forall|kk: int, c: char|
                    #![trigger composites_views(s0@)[kk], alphabet_spec(nrules).contains(c)]
                    0 <= kk < s0@.len() && alphabet_spec(nrules).contains(c) ==> rule_covered(
                        rules@,
                        composites_views(s0@)[kk],
                        c,
                    ))
                &&& (forall|m: int|
                    0 <= m < rules@.len() ==> {
                        let cr = crule_of(#[trigger] rules@[m]);
                        &&& composite_member(composites_views(s0@), cr.state)
                        &&& alphabet_spec(nrules).contains(cr.character)
                        &&& strictly_sorted(cr.next_state)
                        &&& cr.next_state.to_set() == nfa_step_set(
                            nrules,
                            eps_closure(nrules, cr.state.to_set()),
                            cr.character,
                        )
                    })
                &&& crate::dfa_from_nfa::cdeterministic(crules_view(rules@))
            }),
    {
        let ghost nrules = self.nfa_design.rulebook.rules@;
        let mut rules: Vec<FARule<Vec<u32>>> = Vec::new();
        let mut k: usize = 0;
        while k < s0.len()
            invariant
                k <= s0@.len(),
                nrules == self.nfa_design.rulebook.rules@,
                canonical_list(composites_views(s0@)),
                forall|kk: int, c: char|
                    #![trigger composites_views(s0@)[kk], alphabet_spec(nrules).contains(c)]
                    0 <= kk < k && alphabet_spec(nrules).contains(c) ==> rule_covered(
                        rules@,
                        composites_views(s0@)[kk],
                        c,
                    ),
                forall|m: int|
                    0 <= m < rules@.len() ==> {
                        let cr = crule_of(#[trigger] rules@[m]);
                        &&& composite_member(composites_views(s0@).take(k as int), cr.state)
                        &&& alphabet_spec(nrules).contains(cr.character)
                        &&& strictly_sorted(cr.next_state)
                        &&& cr.next_state.to_set() == nfa_step_set(
                            nrules,
                            eps_closure(nrules, cr.state.to_set()),
                            cr.character,
                        )
                    },
                crate::dfa_from_nfa::cdeterministic(crules_view(rules@)),
            decreases s0@.len() - k,
        {
            let ghost old_rules = rules@;
            let mut batch = self.rules_for(&s0[k]);
            let ghost batch_view = batch@;
            proof {
                assert(composites_views(s0@)[k as int] == s0@[k as int]@);
            }
            rules.append(&mut batch);
            proof {
                assert(rules@ == old_rules + batch_view);
                assert forall|kk: int, c: char|
                    #![trigger composites_views(s0@)[kk], alphabet_spec(nrules).contains(c)]
                    0 <= kk < k + 1 && alphabet_spec(nrules).contains(c) implies rule_covered(
                    rules@,
                    composites_views(s0@)[kk],
                    c,
                ) by {
                    if kk < k {
                        assert(rule_covered(old_rules, composites_views(s0@)[kk], c));
                        let m = choose|m: int|
                            0 <= m < old_rules.len() && crule_of(#[trigger] old_rules[m]).state
                                == composites_views(s0@)[kk] && crule_of(old_rules[m]).character
                                == c;
                        assert(rules@[m] == old_rules[m]);
                        assert(crule_of(rules@[m]).state == composites_views(s0@)[kk]
                            && crule_of(rules@[m]).character == c);
                    } else {
                        let m = choose|m: int|
                            0 <= m < batch_view.len() && crule_of(
                                #[trigger] batch_view[m],
                            ).character == c;
                        assert(rules@[old_rules.len() + m] == batch_view[m]);
                        assert(crule_of(rules@[old_rules.len() + m]).state == composites_views(
                            s0@,
                        )[kk] && crule_of(rules@[old_rules.len() + m]).character == c);
                    }
                }
                assert forall|m: int| 0 <= m < rules@.len() implies {
                    let cr = crule_of(#[trigger] rules@[m]);
                    &&& composite_member(composites_views(s0@).take(k + 1), cr.state)
                    &&& alphabet_spec(nrules).contains(cr.character)
                    &&& strictly_sorted(cr.next_state)
                    &&& cr.next_state.to_set() == nfa_step_set(
                        nrules,
                        eps_closure(nrules, cr.state.to_set()),
                        cr.character,
                    )
                } by {
                    if m < old_rules.len() {
                        assert(rules@[m] == old_rules[m]);
                        let cr = crule_of(rules@[m]);
                        let l = choose|l: int|
                            0 <= l < composites_views(s0@).take(k as int).len() && #[trigger]
                            composites_views(s0@).take(k as int)[l] == cr.state;
                        assert(composites_views(s0@).take(k + 1)[l] == cr.state);
                    } else {
                        assert(rules@[m] == batch_view[m - old_rules.len()]);
                        assert(crule_of(rules@[m]).state == composites_views(s0@)[k as int]);
                        assert(composites_views(s0@).take(k + 1)[k as int] == composites_views(
                            s0@,
                        )[k as int]);
                    }
                }
                // no two rules share a key: earlier rules go out of earlier
                // states, and the fresh batch has one rule per symbol
                assert forall|i: int, j: int|
                    0 <= i < crules_view(rules@).len() && 0 <= j < crules_view(rules@).len()
                        && crules_view(rules@)[i].state == crules_view(rules@)[j].state
                        && crules_view(rules@)[i].character == crules_view(rules@)[j].character
                    implies i == j by {
                    assert(crules_view(rules@)[i] == crule_of(rules@[i]));
                    assert(crules_view(rules@)[j] == crule_of(rules@[j]));
                    if i < old_rules.len() && j >= old_rules.len() {
                        lemma_state_of_prefix_not_new(s0@, k as int, crule_of(rules@[i]).state);
                        assert(crule_of(rules@[j]).state == composites_views(s0@)[k as int]);
                    } else if j < old_rules.len() && i >= old_rules.len() {
                        lemma_state_of_prefix_not_new(s0@, k as int, crule_of(rules@[j]).state);
                        assert(crule_of(rules@[i]).state == composites_views(s0@)[k as int]);
                    } else if i < old_rules.len() && j < old_rules.len() {
                        assert(crules_view(old_rules)[i] == crule_of(old_rules[i]));
                        assert(crules_view(old_rules)[j] == crule_of(old_rules[j]));
                    } else {
                        assert(crule_of(batch_view[i - old_rules.len()]).character != crule_of(
                            batch_view[j - old_rules.len()],
                        ).character || i == j);
                    }
                }
            }
            k += 1;
        }
        proof {
            assert(composites_views(s0@).take(s0@.len() as int) =~= composites_views(s0@));
        }
        rules
    }
}

/// A state drawn from the first `k` members of a canonical list is not its
/// `k`-th member.
proof fn lemma_state_of_prefix_not_new(s0: Seq<Vec<u32>>, k: int, st: Seq<u32>)
    requires
        canonical_list(composites_views(s0)),
        0 <= k < composites_views(s0).len(),
        composite_member(composites_views(s0).take(k), st),
    ensures
        st != composites_views(s0)[k],
{
    let l = choose|l: int|
        0 <= l < composites_views(s0).take(k).len() && #[trigger] composites_views(s0).take(k)[l]
            == st;
    assert(composites_views(s0)[l] == st);
}

/// The canonical rule targets not yet on the state list, deduplicated.
fn collect_missing(rules: &Vec<FARule<Vec<u32>>>, s0: &Vec<Vec<u32>>) -> (missing: Vec<Vec<u32>>)
    requires
        forall|m2: int|
            0 <= m2 < rules@.len() ==> crate::sets::strictly_sorted(
                crule_of(#[trigger] rules@[m2]).next_state,
            ),
    ensures
        canonical_list(composites_views(missing@)),
        forall|l: int|
            0 <= l < missing@.len() ==> !composite_member(
                composites_views(s0@),
                #[trigger] composites_views(missing@)[l],
            ),
        forall|l: int|
            #![trigger composites_views(missing@)[l]]
            0 <= l < missing@.len() ==> is_rule_target(rules@, composites_views(missing@)[l]),
        missing@.len() == 0 ==> forall|m2: int|
            0 <= m2 < rules@.len() ==> composite_member(
                composites_views(s0@),
                crule_of(#[trigger] rules@[m2]).next_state,
            ),
{
    let mut missing: Vec<Vec<u32>> = Vec::new();
    let mut m: usize = 0;
    while m < rules.len()
        invariant
            m <= rules@.len(),
            forall|m2: int|
                0 <= m2 < rules@.len() ==> crate::sets::strictly_sorted(
                    crule_of(#[trigger] rules@[m2]).next_state,
                ),
            canonical_list(composites_views(missing@)),
            forall|l: int|
                0 <= l < missing@.len() ==> !composite_member(
                    composites_views(s0@),
                    #[trigger] composites_views(missing@)[l],
                ),
            forall|l: int|
                #![trigger composites_views(missing@)[l]]
                0 <= l < missing@.len() ==> is_rule_target(rules@, composites_views(missing@)[l]),
            forall|m2: int|
                0 <= m2 < m ==> composite_member(
                    composites_views(s0@),
                    crule_of(#[trigger] rules@[m2]).next_state,
                ) || composite_member(
                    composites_views(missing@),
                    crule_of(rules@[m2]).next_state,
                ),
        decreases rules@.len() - m,
    {
        let ghost old_miss = composites_views(missing@);
        proof {
            assert(crule_of(rules@[m as int]).next_state == rules@[m as int].next_state@);
        }
        let in_s0 = contains_composite(s0, &rules[m].next_state);
        if !in_s0 {
            let in_missing = contains_composite(&missing, &rules[m].next_state);
            if !in_missing {
                missing.push(copy_vec(&rules[m].next_state));
                proof {
                    assert(composites_views(missing@) =~= old_miss.push(
                        rules@[m as int].next_state@,
                    ));
                    assert(forall|l: int|
                        0 <= l < old_miss.len() ==> composites_views(missing@)[l] == old_miss[l]);
                    assert(composites_views(missing@)[old_miss.len() as int] == rules@[m as int].next_state@);
                    assert forall|k2: int, l2: int|
                        0 <= k2 < l2 < composites_views(missing@).len()
                        implies composites_views(missing@)[k2] != composites_views(
                        missing@,
                    )[l2] by {
                        if l2 == composites_views(missing@).len() - 1 {
                            assert(!composite_member(old_miss, rules@[m as int].next_state@));
                            assert(old_miss[k2] != rules@[m as int].next_state@);
                        }
                    }
                    assert forall|t: Seq<u32>| composite_member(old_miss, t)
                        implies composite_member(composites_views(missing@), t) by {
                        let l = choose|l: int|
                            0 <= l < old_miss.len() && #[trigger] old_miss[l] == t;
                        assert(composites_views(missing@)[l] == t);
                    }
                }
            } else {
                proof {
                    let l = choose|l: int|
                        0 <= l < old_miss.len() && #[trigger] old_miss[l]
                            == rules@[m as int].next_state@;
                }
            }
        }
        m += 1;
    }
    missing
}


/// A canonical list that stands for the same sets as the input list has the
/// same composite sets, and both lists have the same atoms, so the universe
/// the construction moves in does not change.
proof fn lemma_same_composite_sets(a: Seq<Seq<u32>>, b: Seq<Seq<u32>>)
    requires
        forall|k: int|
            #![trigger b[k]]
            0 <= k < b.len() ==> composite_set_member(a, b[k].to_set()),
        forall|l: int|
            #![trigger a[l]]
            0 <= l < a.len() ==> composite_set_member(b, a[l].to_set()),
    ensures
        composite_sets(a) == composite_sets(b),
{
    assert forall|s: Set<u32>| composite_sets(a).contains(s) implies composite_sets(b).contains(
        s,
    ) by {
        lemma_composite_sets_member(a, s);
        let l = choose|l: int| 0 <= l < a.len() && (#[trigger] a[l]).to_set() == s;
        assert(composite_set_member(b, a[l].to_set()));
        let k = choose|k: int| 0 <= k < b.len() && (#[trigger] b[k]).to_set() == a[l].to_set();
        lemma_composite_sets_member(b, s);
    }
    assert forall|s: Set<u32>| composite_sets(b).contains(s) implies composite_sets(a).contains(
        s,
    ) by {
        lemma_composite_sets_member(b, s);
        let k = choose|k: int| 0 <= k < b.len() && (#[trigger] b[k]).to_set() == s;
        assert(composite_set_member(a, b[k].to_set()));
        let l = choose|l: int| 0 <= l < a.len() && (#[trigger] a[l]).to_set() == b[k].to_set();
        lemma_composite_sets_member(a, s);
    }
    assert(composite_sets(a) =~= composite_sets(b));
}

proof fn lemma_universe_same(rules: Seq<FARule<u32>>, a: Seq<Seq<u32>>, b: Seq<Seq<u32>>)
    requires
        forall|k: int|
            #![trigger b[k]]
            0 <= k < b.len() ==> composite_set_member(a, b[k].to_set()),
        forall|l: int|
            #![trigger a[l]]
            0 <= l < a.len() ==> composite_set_member(b, a[l].to_set()),
    ensures
        discover_universe(rules, a) == discover_universe(rules, b),
{
    assert forall|x: u32| atoms(a).contains(x) implies atoms(b).contains(x) by {
        lemma_atoms_member(a, x);
        let l = choose|l: int| 0 <= l < a.len() && (#[trigger] a[l]).contains(x);
        assert(composite_set_member(b, a[l].to_set()));
        let k = choose|k: int| 0 <= k < b.len() && (#[trigger] b[k]).to_set() == a[l].to_set();
        assert(b[k].to_set().contains(x));
        lemma_atoms_member(b, x);
    }
    assert forall|x: u32| atoms(b).contains(x) implies atoms(a).contains(x) by {
        lemma_atoms_member(b, x);
        let k = choose|k: int| 0 <= k < b.len() && (#[trigger] b[k]).contains(x);
        assert(composite_set_member(a, b[k].to_set()));
        let l = choose|l: int| 0 <= l < a.len() && (#[trigger] a[l]).to_set() == b[k].to_set();
        assert(a[l].to_set().contains(x));
        lemma_atoms_member(a, x);
    }
    assert(atoms(a) =~= atoms(b));
    assert(discover_universe(rules, a) =~= discover_universe(rules, b));
}

/// Growing the canonical list by newly found ε-closed rule targets keeps the
/// universe and strictly grows the family of composite sets, which the
/// universe's (finite) powerset bounds: the measure of the recursion drops.
proof fn lemma_discover_measure(
    rules: Seq<FARule<u32>>,
    in_views: Seq<Seq<u32>>,
    s0_views: Seq<Seq<u32>>,
    miss: Seq<Seq<u32>>,
)
    requires
        composite_sets(s0_views) == composite_sets(in_views),
        discover_universe(rules, s0_views) == discover_universe(rules, in_views),
        miss.len() > 0,
        canonical_list(s0_views),
        canonical_list(miss),
        forall|l: int|
            0 <= l < miss.len() ==> !composite_member(s0_views, #[trigger] miss[l]),
        forall|l: int|
            0 <= l < miss.len() ==> (#[trigger] miss[l]).to_set().subset_of(rule_targets(rules)),
    ensures
        crate::sets::powerset(discover_universe(rules, s0_views + miss)).len() - composite_sets(
            s0_views + miss,
        ).len() < crate::sets::powerset(discover_universe(rules, in_views)).len()
            - composite_sets(in_views).len(),
        crate::sets::powerset(discover_universe(rules, s0_views + miss)).len() - composite_sets(
            s0_views + miss,
        ).len() >= 0,
{
    let big = s0_views + miss;
    // the universe does not change: every new atom is a rule target
    assert forall|x: u32| atoms(big).contains(x) implies discover_universe(
        rules,
        s0_views,
    ).contains(x) by {
        lemma_atoms_member(big, x);
        let k = choose|k: int| 0 <= k < big.len() && (#[trigger] big[k]).contains(x);
        if k < s0_views.len() {
            lemma_atoms_member(s0_views, x);
            assert(s0_views[k].contains(x));
        } else {
            assert(miss[k - s0_views.len()].to_set().contains(x));
        }
    }
    assert forall|x: u32| atoms(s0_views).contains(x) implies atoms(big).contains(x) by {
        lemma_atoms_member(s0_views, x);
        let k = choose|k: int| 0 <= k < s0_views.len() && (#[trigger] s0_views[k]).contains(x);
        assert(big[k].contains(x));
        lemma_atoms_member(big, x);
    }
    assert(discover_universe(rules, big) =~= discover_universe(rules, s0_views));

    // the composite sets strictly grow: the first missing state is new
    let new_set = miss[0].to_set();
    assert forall|s: Set<u32>| composite_sets(s0_views).contains(s)
        implies composite_sets(big).contains(s) by {
        lemma_composite_sets_member(s0_views, s);
        let l = choose|l: int| 0 <= l < s0_views.len() && (#[trigger] s0_views[l]).to_set() == s;
        assert(big[l].to_set() == s);
        lemma_composite_sets_member(big, s);
    }
    assert(composite_sets(big).contains(new_set)) by {
        assert(big[s0_views.len() as int] == miss[0]);
        lemma_composite_sets_member(big, new_set);
    }
    assert(!composite_sets(s0_views).contains(new_set)) by {
        lemma_composite_sets_member(s0_views, new_set);
        if exists|l: int| 0 <= l < s0_views.len() && (#[trigger] s0_views[l]).to_set() == new_set {
            let l = choose|l: int|
                0 <= l < s0_views.len() && (#[trigger] s0_views[l]).to_set() == new_set;
            crate::sets::lemma_canonical_unique(s0_views[l], miss[0]);
            assert(composite_member(s0_views, miss[0]));
        }
    }
    lemma_composite_sets_in_powerset(rules, big);
    lemma_composite_sets_in_powerset(rules, s0_views);
    vstd::set_lib::lemma_len_subset(
        composite_sets(s0_views),
        crate::sets::powerset(discover_universe(rules, s0_views)),
    );
    composite_sets(s0_views).lemma_subset_not_in_lt(composite_sets(big), new_set);
}

} // verus!
