//! Statements of the small imperative language and their semantics.
//!
//! `Stm` is the mathematical form. Small-step reduction (`stm_step`) and
//! fuel-indexed big-step evaluation (`stm_eval`) are specification
//! functions; the executable `reduce` performs exactly one small step, and
//! `evaluate` drives reduction to the irreducible form, returning the
//! big-step environment. `lemma_stm_step_preserves_eval` shows that each
//! small step keeps the big-step meaning, and `lemma_stm_step_env_monotone`
//! that a step never drops a binding.

use vstd::prelude::*;
use crate::expression::{
    Exp, Expression, Environment, SpecEnv, exp_is_value, exp_step, exp_eval, env_wf,
    lemma_exp_step_preserves_eval, ruby_exp,
};

verus! {

/// The mathematical form of a statement.
pub enum Stm {
    DoNothing,
    Assignment(Seq<char>, Exp),
    If(Exp, Box<Stm>, Box<Stm>),
    Sequence(Box<Stm>, Box<Stm>),
    While(Exp, Box<Stm>),
}

/// One small step: `None` on a type clash, an unbound variable, an overflow
/// or the irreducible statement.
pub open spec fn stm_step(s: Stm, env: SpecEnv) -> Option<(Stm, SpecEnv)>
    decreases s,
{
    match s {
        Stm::DoNothing => None,
        Stm::Assignment(n, e) => if !exp_is_value(e) {
            match exp_step(e, env) {
                Some(e2) => Some((Stm::Assignment(n, e2), env)),
                None => None,
            }
        } else {
            Some((Stm::DoNothing, env.insert(n, e)))
        },
        Stm::If(c, t, a) => if !exp_is_value(c) {
            match exp_step(c, env) {
                Some(c2) => Some((Stm::If(c2, t, a), env)),
                None => None,
            }
        } else {
            match c {
                Exp::Boolean(true) => Some((*t, env)),
                Exp::Boolean(false) => Some((*a, env)),
                _ => None,
            }
        },
        Stm::Sequence(s1, s2) => if *s1 == Stm::DoNothing {
            Some((*s2, env))
        } else {
            match stm_step(*s1, env) {
                Some(p) => Some((Stm::Sequence(Box::new(p.0), s2), p.1)),
                None => None,
            }
        },
        Stm::While(c, b) => Some(
            (
                Stm::If(
                    c,
                    Box::new(Stm::Sequence(b, Box::new(Stm::While(c, b)))),
                    Box::new(Stm::DoNothing),
                ),
                env,
            ),
        ),
    }
}

/// Big-step evaluation with fuel bounding how often loops may unfold;
/// `None` on an error or when the fuel runs out.
pub open spec fn stm_eval(s: Stm, env: SpecEnv, fuel: nat) -> Option<SpecEnv>
    decreases fuel, s,
{
    match s {
        Stm::DoNothing => Some(env),
        Stm::Assignment(n, e) => match exp_eval(e, env) {
            Some(v) => Some(env.insert(n, v)),
            None => None,
        },
        Stm::If(c, t, a) => match exp_eval(c, env) {
            Some(Exp::Boolean(true)) => stm_eval(*t, env, fuel),
            Some(Exp::Boolean(false)) => stm_eval(*a, env, fuel),
            _ => None,
        },
        Stm::Sequence(s1, s2) => match stm_eval(*s1, env, fuel) {
            Some(env1) => stm_eval(*s2, env1, fuel),
            None => None,
        },
        Stm::While(c, b) => if fuel == 0 {
            None
        } else {
            match exp_eval(c, env) {
                Some(Exp::Boolean(true)) => match stm_eval(*b, env, fuel) {
                    Some(env1) => stm_eval(Stm::While(c, b), env1, (fuel - 1) as nat),
                    None => None,
                },
                Some(Exp::Boolean(false)) => Some(env),
                _ => None,
            }
        },
    }
}

/// More fuel never changes a successful evaluation.
pub proof fn lemma_stm_eval_mono(s: Stm, env: SpecEnv, f: nat, f2: nat)
    requires
        stm_eval(s, env, f).is_some(),
        f <= f2,
    ensures
        stm_eval(s, env, f2) == stm_eval(s, env, f),
    decreases f2, s,
{
    match s {
        Stm::If(c, t, a) => {
            match exp_eval(c, env) {
                Some(Exp::Boolean(true)) => lemma_stm_eval_mono(*t, env, f, f2),
                Some(Exp::Boolean(false)) => lemma_stm_eval_mono(*a, env, f, f2),
                _ => {},
            }
        }
        Stm::Sequence(s1, s2) => {
            lemma_stm_eval_mono(*s1, env, f, f2);
            let env1 = stm_eval(*s1, env, f).unwrap();
            lemma_stm_eval_mono(*s2, env1, f, f2);
        }
        Stm::While(c, b) => {
            match exp_eval(c, env) {
                Some(Exp::Boolean(true)) => {
                    lemma_stm_eval_mono(*b, env, f, f2);
                    let env1 = stm_eval(*b, env, f).unwrap();
                    lemma_stm_eval_mono(Stm::While(c, b), env1, (f - 1) as nat, (f2 - 1) as nat);
                },
                _ => {},
            }
        }
        _ => {}
    }
}

/// Environment monotonicity: a reduction step never loses a binding; the
/// new environment's key set contains the old one.
pub proof fn lemma_stm_step_env_monotone(s: Stm, env: SpecEnv)
    requires
        stm_step(s, env).is_some(),
    ensures
        env.dom().subset_of(stm_step(s, env).unwrap().1.dom()),
    decreases s,
{
    match s {
        Stm::Sequence(s1, s2) => {
            if !(*s1 == Stm::DoNothing) {
                lemma_stm_step_env_monotone(*s1, env);
            }
        }
        _ => {}
    }
}

/// One small step keeps the big-step meaning: where evaluation succeeds,
/// the stepped statement evaluates (with some fuel) to the same final
/// environment, and the environment stays well formed.
pub proof fn lemma_stm_step_preserves_eval(s: Stm, env: SpecEnv, f: nat)
    requires
        env_wf(env),
        !(s == Stm::DoNothing),
        stm_eval(s, env, f).is_some(),
    ensures
        stm_step(s, env).is_some(),
        env_wf(stm_step(s, env).unwrap().1),
        exists|f2: nat|
            stm_eval(stm_step(s, env).unwrap().0, stm_step(s, env).unwrap().1, f2) == stm_eval(
                s,
                env,
                f,
            ),
    decreases s,
{
    match s {
        Stm::Assignment(n, e) => {
            if !exp_is_value(e) {
                lemma_exp_step_preserves_eval(e, env);
                let e2 = exp_step(e, env).unwrap();
                let p = stm_step(s, env).unwrap();
                assert(p.0 == Stm::Assignment(n, e2) && p.1 == env);
                assert(stm_eval(p.0, p.1, f) == stm_eval(s, env, f));
            } else {
                crate::expression::lemma_exp_eval_value(e, env);
                assert(exp_eval(e, env) == Some(e));
                let p = stm_step(s, env).unwrap();
                assert(p.0 == Stm::DoNothing && p.1 == env.insert(n, e));
                assert(stm_eval(p.0, p.1, f) == stm_eval(s, env, f));
            }
        }
        Stm::If(c, t, a) => {
            if !exp_is_value(c) {
                lemma_exp_step_preserves_eval(c, env);
                let c2 = exp_step(c, env).unwrap();
                let p = stm_step(s, env).unwrap();
                assert(p.0 == Stm::If(c2, t, a) && p.1 == env);
                assert(stm_eval(p.0, p.1, f) == stm_eval(s, env, f));
            } else {
                match c {
                    Exp::Boolean(true) => {
                        let p = stm_step(s, env).unwrap();
                        assert(stm_eval(p.0, p.1, f) == stm_eval(s, env, f));
                    },
                    Exp::Boolean(false) => {
                        let p = stm_step(s, env).unwrap();
                        assert(stm_eval(p.0, p.1, f) == stm_eval(s, env, f));
                    },
                    _ => {},
                }
            }
        }
        Stm::Sequence(s1, s2) => {
            if *s1 == Stm::DoNothing {
                let p = stm_step(s, env).unwrap();
                assert(stm_eval(p.0, p.1, f) == stm_eval(s, env, f));
            } else {
                lemma_stm_step_preserves_eval(*s1, env, f);
                let p1 = stm_step(*s1, env).unwrap();
                let f1 = choose|f1: nat| stm_eval(p1.0, p1.1, f1) == stm_eval(*s1, env, f);
                let env1 = stm_eval(*s1, env, f).unwrap();
                let fm: nat = if f1 >= f {
                    f1
                } else {
                    f
                };
                lemma_stm_eval_mono(p1.0, p1.1, f1, fm);
                lemma_stm_eval_mono(*s2, env1, f, fm);
                let p = stm_step(s, env).unwrap();
                assert(p.0 == Stm::Sequence(Box::new(p1.0), s2) && p.1 == p1.1);
                assert(stm_eval(p.0, p.1, fm) == stm_eval(s, env, f));
            }
        }
        Stm::While(c, b) => {
            let seqd = Stm::Sequence(b, Box::new(Stm::While(c, b)));
            let unfolded = Stm::If(c, Box::new(seqd), Box::new(Stm::DoNothing));
            let p = stm_step(s, env).unwrap();
            assert(p.0 == unfolded && p.1 == env);
            match exp_eval(c, env) {
                Some(Exp::Boolean(true)) => {
                    let env1 = stm_eval(*b, env, f).unwrap();
                    lemma_stm_eval_mono(Stm::While(c, b), env1, (f - 1) as nat, f);
                    assert(stm_eval(seqd, env, f) == stm_eval(s, env, f));
                    assert(stm_eval(unfolded, env, f) == stm_eval(seqd, env, f));
                    assert(stm_eval(p.0, p.1, f) == stm_eval(s, env, f));
                },
                Some(Exp::Boolean(false)) => {
                    assert(stm_eval(unfolded, env, f) == stm_eval(s, env, f));
                    assert(stm_eval(p.0, p.1, f) == stm_eval(s, env, f));
                },
                _ => {},
            }
        }
        _ => {}
    }
}

/// `n` machine steps in a row: the statement and environment reached, or
/// `None` when a step is impossible.
pub open spec fn stm_step_n(s: Stm, env: SpecEnv, n: nat) -> Option<(Stm, SpecEnv)>
    decreases n,
{
    if n == 0 {
        Some((s, env))
    } else {
        match stm_step(s, env) {
            Some(p) => stm_step_n(p.0, p.1, (n - 1) as nat),
            None => None,
        }
    }
}

proof fn lemma_stm_step_one(s: Stm, env: SpecEnv)
    requires
        stm_step(s, env).is_some(),
    ensures
        stm_step_n(s, env, 1) == Some(stm_step(s, env).unwrap()),
{
    let p = stm_step(s, env).unwrap();
    assert(stm_step_n(p.0, p.1, 0) == Some(p));
}

proof fn lemma_stm_step_n_compose(s: Stm, env: SpecEnv, m: nat, k: nat)
    requires
        stm_step_n(s, env, m).is_some(),
    ensures
        stm_step_n(s, env, m + k) == stm_step_n(
            stm_step_n(s, env, m).unwrap().0,
            stm_step_n(s, env, m).unwrap().1,
            k,
        ),
    decreases m,
{
    if m > 0 {
        let p = stm_step(s, env).unwrap();
        lemma_stm_step_n_compose(p.0, p.1, (m - 1) as nat, k);
        assert(stm_step_n(s, env, m + k) == stm_step_n(p.0, p.1, (m - 1) as nat + k));
    }
}

/// Steps of the first component lift to steps of the whole sequence.
proof fn lemma_seq_lift(s1: Stm, s2: Stm, env: SpecEnv, n: nat)
    requires
        stm_step_n(s1, env, n).is_some(),
    ensures
        stm_step_n(Stm::Sequence(Box::new(s1), Box::new(s2)), env, n) == Some(
            (
                Stm::Sequence(Box::new(stm_step_n(s1, env, n).unwrap().0), Box::new(s2)),
                stm_step_n(s1, env, n).unwrap().1,
            ),
        ),
    decreases n,
{
    if n > 0 {
        assert(stm_step(s1, env).is_some());
        assert(!(s1 == Stm::DoNothing));
        let p = stm_step(s1, env).unwrap();
        assert(stm_step(Stm::Sequence(Box::new(s1), Box::new(s2)), env) == Some(
            (Stm::Sequence(Box::new(p.0), Box::new(s2)), p.1),
        ));
        lemma_seq_lift(p.0, s2, p.1, (n - 1) as nat);
    }
}

/// Steps of the assigned expression lift to steps of the assignment.
proof fn lemma_assign_lift(x: Seq<char>, e: Exp, env: SpecEnv, n: nat)
    requires
        crate::expression::exp_step_n(e, env, n).is_some(),
    ensures
        stm_step_n(Stm::Assignment(x, e), env, n) == Some(
            (
                Stm::Assignment(x, crate::expression::exp_step_n(e, env, n).unwrap()),
                env,
            ),
        ),
    decreases n,
{
    if n > 0 {
        assert(exp_step(e, env).is_some());
        assert(!exp_is_value(e));
        let e2 = exp_step(e, env).unwrap();
        assert(stm_step(Stm::Assignment(x, e), env) == Some((Stm::Assignment(x, e2), env)));
        lemma_assign_lift(x, e2, env, (n - 1) as nat);
    }
}

/// Steps of the condition lift to steps of the conditional.
proof fn lemma_if_lift(c: Exp, t: Stm, a: Stm, env: SpecEnv, n: nat)
    requires
        crate::expression::exp_step_n(c, env, n).is_some(),
    ensures
        stm_step_n(Stm::If(c, Box::new(t), Box::new(a)), env, n) == Some(
            (
                Stm::If(
                    crate::expression::exp_step_n(c, env, n).unwrap(),
                    Box::new(t),
                    Box::new(a),
                ),
                env,
            ),
        ),
    decreases n,
{
    if n > 0 {
        assert(exp_step(c, env).is_some());
        assert(!exp_is_value(c));
        let c2 = exp_step(c, env).unwrap();
        assert(stm_step(Stm::If(c, Box::new(t), Box::new(a)), env) == Some(
            (Stm::If(c2, Box::new(t), Box::new(a)), env),
        ));
        lemma_if_lift(c2, t, a, env, (n - 1) as nat);
    }
}

/// Big-step evaluation keeps the environment well formed: only values are
/// ever bound.
pub proof fn lemma_stm_eval_env_wf(s: Stm, env: SpecEnv, f: nat)
    requires
        env_wf(env),
        stm_eval(s, env, f).is_some(),
    ensures
        env_wf(stm_eval(s, env, f).unwrap()),
    decreases f, s,
{
    match s {
        Stm::Assignment(n, e) => {
            crate::expression::lemma_exp_eval_value(e, env);
        }
        Stm::If(c, t, a) => {
            match exp_eval(c, env) {
                Some(Exp::Boolean(true)) => lemma_stm_eval_env_wf(*t, env, f),
                Some(Exp::Boolean(false)) => lemma_stm_eval_env_wf(*a, env, f),
                _ => {},
            }
        }
        Stm::Sequence(s1, s2) => {
            lemma_stm_eval_env_wf(*s1, env, f);
            lemma_stm_eval_env_wf(*s2, stm_eval(*s1, env, f).unwrap(), f);
        }
        Stm::While(c, b) => {
            match exp_eval(c, env) {
                Some(Exp::Boolean(true)) => {
                    lemma_stm_eval_env_wf(*b, env, f);
                    lemma_stm_eval_env_wf(
                        Stm::While(c, b),
                        stm_eval(*b, env, f).unwrap(),
                        (f - 1) as nat,
                    );
                },
                _ => {},
            }
        }
        _ => {}
    }
}

/// Small-step and big-step agree on statements: on every terminating,
/// error-free program, the machine run to its fixpoint ends at the
/// irreducible statement with exactly the big-step environment.
pub proof fn lemma_stm_small_big(s: Stm, env: SpecEnv, f: nat)
    requires
        env_wf(env),
        stm_eval(s, env, f).is_some(),
    ensures
        exists|n: nat|
            stm_step_n(s, env, n) == Some((Stm::DoNothing, stm_eval(s, env, f).unwrap())),
    decreases f, s,
{
    let target = stm_eval(s, env, f).unwrap();
    match s {
        Stm::DoNothing => {
            assert(stm_step_n(s, env, 0) == Some((Stm::DoNothing, target)));
        }
        Stm::Assignment(x, e) => {
            let v = exp_eval(e, env).unwrap();
            crate::expression::lemma_exp_eval_value(e, env);
            crate::expression::lemma_exp_small_big(e, env);
            let m = choose|m: nat|
                crate::expression::exp_step_n(e, env, m) == Some(exp_eval(e, env).unwrap());
            lemma_assign_lift(x, e, env, m);
            assert(stm_step(Stm::Assignment(x, v), env) == Some(
                (Stm::DoNothing, env.insert(x, v)),
            ));
            lemma_stm_step_n_compose(s, env, m, 1);
            lemma_stm_step_one(Stm::Assignment(x, v), env);
            assert(stm_step_n(s, env, m + 1) == Some((Stm::DoNothing, target)));
        }
        Stm::If(c, t, a) => {
            crate::expression::lemma_exp_small_big(c, env);
            let m = choose|m: nat|
                crate::expression::exp_step_n(c, env, m) == Some(exp_eval(c, env).unwrap());
            let cv = exp_eval(c, env).unwrap();
            assert(Box::new(*t) == t && Box::new(*a) == a);
            lemma_if_lift(c, *t, *a, env, m);
            let branch: Stm = if cv == Exp::Boolean(true) {
                *t
            } else {
                *a
            };
            assert(stm_step(Stm::If(cv, t, a), env) == Some((branch, env)));
            lemma_stm_step_n_compose(s, env, m, 1);
            lemma_stm_step_one(Stm::If(cv, t, a), env);
            assert(stm_step_n(s, env, m + 1) == Some((branch, env)));
            assert(stm_eval(branch, env, f) == Some(target));
            lemma_stm_small_big(branch, env, f);
            let n2 = choose|n2: nat|
                stm_step_n(branch, env, n2) == Some((Stm::DoNothing, target));
            lemma_stm_step_n_compose(s, env, m + 1, n2);
            assert(stm_step_n(s, env, m + 1 + n2) == Some((Stm::DoNothing, target)));
        }
        Stm::Sequence(s1, s2) => {
            let env1 = stm_eval(*s1, env, f).unwrap();
            lemma_stm_small_big(*s1, env, f);
            let n1 = choose|n1: nat| stm_step_n(*s1, env, n1) == Some((Stm::DoNothing, env1));
            lemma_seq_lift(*s1, *s2, env, n1);
            assert(Box::new(*s1) == s1 && Box::new(*s2) == s2);
            assert(stm_step_n(s, env, n1) == Some(
                (Stm::Sequence(Box::new(Stm::DoNothing), Box::new(*s2)), env1),
            ));
            assert(stm_step(Stm::Sequence(Box::new(Stm::DoNothing), Box::new(*s2)), env1)
                == Some((*s2, env1)));
            lemma_stm_step_n_compose(s, env, n1, 1);
            lemma_stm_step_one(Stm::Sequence(Box::new(Stm::DoNothing), Box::new(*s2)), env1);
            assert(stm_step_n(s, env, n1 + 1) == Some((*s2, env1)));
            lemma_stm_eval_env_wf(*s1, env, f);
            lemma_stm_small_big(*s2, env1, f);
            let n2 = choose|n2: nat| stm_step_n(*s2, env1, n2) == Some((Stm::DoNothing, target));
            lemma_stm_step_n_compose(s, env, n1 + 1, n2);
            assert(stm_step_n(s, env, n1 + 1 + n2) == Some((Stm::DoNothing, target)));
        }
        Stm::While(c, b) => {
            let seqd = Stm::Sequence(b, Box::new(Stm::While(c, b)));
            let unfolded = Stm::If(c, Box::new(seqd), Box::new(Stm::DoNothing));
            assert(stm_step(s, env) == Some((unfolded, env)));
            lemma_stm_step_one(s, env);
            assert(stm_step_n(s, env, 1) == Some((unfolded, env)));
            crate::expression::lemma_exp_small_big(c, env);
            let m = choose|m: nat|
                crate::expression::exp_step_n(c, env, m) == Some(exp_eval(c, env).unwrap());
            let cv = exp_eval(c, env).unwrap();
            lemma_if_lift(c, seqd, Stm::DoNothing, env, m);
            lemma_stm_step_n_compose(s, env, 1, m);
            assert(stm_step_n(s, env, 1 + m) == Some(
                (Stm::If(cv, Box::new(seqd), Box::new(Stm::DoNothing)), env),
            ));
            if cv == Exp::Boolean(false) {
                assert(stm_step(Stm::If(cv, Box::new(seqd), Box::new(Stm::DoNothing)), env)
                    == Some((Stm::DoNothing, env)));
                lemma_stm_step_n_compose(s, env, 1 + m, 1);
                lemma_stm_step_one(Stm::If(cv, Box::new(seqd), Box::new(Stm::DoNothing)), env);
                assert(stm_step_n(s, env, 1 + m + 1) == Some((Stm::DoNothing, target)));
            } else {
                assert(cv == Exp::Boolean(true));
                assert(stm_step(Stm::If(cv, Box::new(seqd), Box::new(Stm::DoNothing)), env)
                    == Some((seqd, env)));
                lemma_stm_step_n_compose(s, env, 1 + m, 1);
                lemma_stm_step_one(Stm::If(cv, Box::new(seqd), Box::new(Stm::DoNothing)), env);
                assert(stm_step_n(s, env, 1 + m + 1) == Some((seqd, env)));
                let env1 = stm_eval(*b, env, f).unwrap();
                lemma_stm_small_big(*b, env, f);
                let nb = choose|nb: nat| stm_step_n(*b, env, nb) == Some((Stm::DoNothing, env1));
                lemma_seq_lift(*b, Stm::While(c, b), env, nb);
                assert(Box::new(*b) == b);
                assert(stm_step_n(seqd, env, nb) == Some(
                    (Stm::Sequence(Box::new(Stm::DoNothing), Box::new(Stm::While(c, b))), env1),
                ));
                assert(stm_step(
                    Stm::Sequence(Box::new(Stm::DoNothing), Box::new(Stm::While(c, b))),
                    env1,
                ) == Some((Stm::While(c, b), env1)));
                lemma_stm_step_n_compose(s, env, 1 + m + 1, nb);
                assert(stm_step_n(s, env, 1 + m + 1 + nb) == Some(
                    (Stm::Sequence(Box::new(Stm::DoNothing), Box::new(Stm::While(c, b))), env1),
                ));
                lemma_stm_step_n_compose(s, env, 1 + m + 1 + nb, 1);
                lemma_stm_step_one(
                    Stm::Sequence(Box::new(Stm::DoNothing), Box::new(Stm::While(c, b))),
                    env1,
                );
                assert(stm_step_n(s, env, 1 + m + 1 + nb + 1) == Some(
                    (Stm::While(c, b), env1),
                ));
                lemma_stm_eval_env_wf(*b, env, f);
                assert(stm_eval(Stm::While(c, b), env1, (f - 1) as nat) == Some(target));
                lemma_stm_small_big(Stm::While(c, b), env1, (f - 1) as nat);
                let nw = choose|nw: nat|
                    stm_step_n(Stm::While(c, b), env1, nw) == Some((Stm::DoNothing, target));
                lemma_stm_step_n_compose(s, env, 1 + m + 1 + nb + 1, nw);
                assert(stm_step_n(s, env, 1 + m + 1 + nb + 1 + nw) == Some(
                    (Stm::DoNothing, target),
                ));
            }
        }
    }
}

/// The text of the closure the statement translates to: applied to an
/// environment, it yields the statement's big-step environment in the host
/// language.
pub open spec fn ruby_stm(s: Stm) -> Seq<char>
    decreases s,
{
    match s {
        Stm::DoNothing => ("-> e { e }")@,
        Stm::Assignment(n, e) => ("-> e { e.merge({ :")@ + n + (" => (")@ + ruby_exp(e) + (
        ").call(e) }) }")@,
        Stm::If(c, t, a) => ("-> e { if(")@ + ruby_exp(c) + (").call(e) then (")@ + ruby_stm(*t)
            + (").call(e) else (")@ + ruby_stm(*a) + (").call(e) end }")@,
        Stm::Sequence(s1, s2) => ("-> e { (")@ + ruby_stm(*s2) + (").call((")@ + ruby_stm(*s1)
            + (").call(e)) }")@,
        Stm::While(c, b) => ("-> e { while (")@ + ruby_exp(c) + (").call(e); e = (")@ + ruby_stm(
            *b,
        ) + (").call(e); end; e }")@,
    }
}

/// A statement of the language.
#[derive(Debug)]
pub enum Statement {
    DoNothing,
    Assignment { name: String, expression: Expression },
    If { condition: Expression, consequence: Box<Statement>, alternative: Box<Statement> },
    Sequence { first: Box<Statement>, second: Box<Statement> },
    While { condition: Expression, body: Box<Statement> },
}

impl Statement {
    /// The mathematical form of the statement.
    pub open spec fn deep_form(self) -> Stm
        decreases self,
    {
        match self {
            Statement::DoNothing => Stm::DoNothing,
            Statement::Assignment { name, expression } => Stm::Assignment(name@, expression@),
            Statement::If { condition, consequence, alternative } => Stm::If(
                condition@,
                Box::new((*consequence).deep_form()),
                Box::new((*alternative).deep_form()),
            ),
            Statement::Sequence { first, second } => Stm::Sequence(
                Box::new((*first).deep_form()),
                Box::new((*second).deep_form()),
            ),
            Statement::While { condition, body } => Stm::While(
                condition@,
                Box::new((*body).deep_form()),
            ),
        }
    }
}

impl View for Statement {
    type V = Stm;

    open spec fn view(&self) -> Stm {
        (*self).deep_form()
    }
}

impl Statement {
    /// A fresh statement with the same mathematical form.
    pub fn duplicate(&self) -> (r: Statement)
        ensures
            r@ == self@,
        decreases *self,
    {
        match self {
            Statement::DoNothing => Statement::DoNothing,
            Statement::Assignment { name, expression } => Statement::Assignment {
                name: name.clone(),
                expression: expression.duplicate(),
            },
            Statement::If { condition, consequence, alternative } => Statement::If {
                condition: condition.duplicate(),
                consequence: Box::new(consequence.duplicate()),
                alternative: Box::new(alternative.duplicate()),
            },
            Statement::Sequence { first, second } => Statement::Sequence {
                first: Box::new(first.duplicate()),
                second: Box::new(second.duplicate()),
            },
            Statement::While { condition, body } => Statement::While {
                condition: condition.duplicate(),
                body: Box::new(body.duplicate()),
            },
        }
    }

    /// Only `DoNothing` is irreducible.
    pub fn is_reducible(&self) -> (r: bool)
        ensures
            r == !(self@ == Stm::DoNothing),
    {
        match self {
            Statement::DoNothing => false,
            _ => true,
        }
    }

    /// One small step, returning the next statement and environment. The
    /// step must be possible: reducing the irreducible statement, a type
    /// clash, an unbound variable or an overflow is ruled out.
    pub fn reduce(&self, environment: &mut Environment) -> (r: (Statement, Environment))
        requires
            stm_step(self.deep_form(), old(environment)@).is_some(),
        ensures
            final(environment)@ == old(environment)@,
            ({
                let p = stm_step(self@, old(environment)@).unwrap();
                r.0@ == p.0 && r.1@ == p.1
            }),
        decreases *self,
    {
        match self {
            Statement::Assignment { name, expression } => {
                if expression.is_reducible() {
                    (
                        Statement::Assignment {
                            name: name.clone(),
                            expression: expression.reduce(environment),
                        },
                        environment.duplicate(),
                    )
                } else {
                    let mut new_env = environment.duplicate();
                    new_env.insert(name.as_str(), expression.duplicate());
                    (Statement::DoNothing, new_env)
                }
            },
            Statement::If { condition, consequence, alternative } => {
                if condition.is_reducible() {
                    (
                        Statement::If {
                            condition: condition.reduce(environment),
                            consequence: Box::new(consequence.duplicate()),
                            alternative: Box::new(alternative.duplicate()),
                        },
                        environment.duplicate(),
                    )
                } else {
                    match condition {
                        Expression::Boolean(true) => (
                            consequence.duplicate(),
                            environment.duplicate(),
                        ),
                        Expression::Boolean(false) => (
                            alternative.duplicate(),
                            environment.duplicate(),
                        ),
                        _ => unreached(),
                    }
                }
            },
            Statement::Sequence { first, second } => {
                if !first.is_reducible() {
                    proof {
                        assert(first@ == Stm::DoNothing);
                    }
                    (second.duplicate(), environment.duplicate())
                } else {
                    let (reduced_first, reduced_env) = first.reduce(environment);
                    (
                        Statement::Sequence {
                            first: Box::new(reduced_first),
                            second: Box::new(second.duplicate()),
                        },
                        reduced_env,
                    )
                }
            },
            Statement::While { condition, body } => {
                let seq_part = Statement::Sequence {
                    first: Box::new(body.duplicate()),
                    second: Box::new(self.duplicate()),
                };
                proof {
                    assert(self@ == Stm::While(condition@, Box::new((**body)@)));
                    assert(seq_part@ == Stm::Sequence(Box::new((**body)@), Box::new(self@)));
                }
                let ghost sv = seq_part@;
                let next = Statement::If {
                    condition: condition.duplicate(),
                    consequence: Box::new(seq_part),
                    alternative: Box::new(Statement::DoNothing),
                };
                proof {
                    assert(next@ == Stm::If(condition@, Box::new(sv), Box::new(Stm::DoNothing)));
                }
                (next, environment.duplicate())
            },
            Statement::DoNothing => unreached(),
        }
    }

    /// Big-step evaluation to the final environment, with the given fuel
    /// bounding loop unfoldings.
    fn eval_rec(&self, environment: &mut Environment, Ghost(fuel): Ghost<nat>) -> (r: Environment)
        requires
            stm_eval(self.deep_form(), old(environment)@, fuel).is_some(),
        ensures
            Some(r@) == stm_eval(self@, old(environment)@, fuel),
            final(environment)@ == old(environment)@,
        decreases fuel, *self,
    {
        match self {
            Statement::DoNothing => environment.duplicate(),
            Statement::Assignment { name, expression } => {
                let v = expression.evaluate(environment);
                let mut new_env = environment.duplicate();
                new_env.insert(name.as_str(), v);
                new_env
            },
            Statement::If { condition, consequence, alternative } => {
                let c = condition.evaluate(environment);
                match c {
                    Expression::Boolean(true) => consequence.eval_rec(environment, Ghost(fuel)),
                    Expression::Boolean(false) => alternative.eval_rec(environment, Ghost(fuel)),
                    _ => unreached(),
                }
            },
            Statement::Sequence { first, second } => {
                let mut env1 = first.eval_rec(environment, Ghost(fuel));
                second.eval_rec(&mut env1, Ghost(fuel))
            },
            Statement::While { condition, body } => {
                let c = condition.evaluate(environment);
                match c {
                    Expression::Boolean(false) => environment.duplicate(),
                    Expression::Boolean(true) => {
                        let mut env1 = body.eval_rec(environment, Ghost(fuel));
                        self.eval_rec(&mut env1, Ghost((fuel - 1) as nat))
                    },
                    _ => unreached(),
                }
            },
        }
    }

    /// Big-step evaluation: the final environment of the statement, which
    /// is also written back. The program must terminate without an error:
    /// some fuel must suffice for it.
    pub fn evaluate(&self, environment: &mut Environment) -> (r: Environment)
        requires
            exists|f: nat| stm_eval(self.deep_form(), old(environment)@, f).is_some(),
        ensures
            exists|f: nat| stm_eval(self@, old(environment)@, f) == Some(r@),
            final(environment)@ == r@,
    {
        let ghost f0 = choose|f: nat| stm_eval(self.deep_form(), old(environment)@, f).is_some();
        let result = self.eval_rec(environment, Ghost(f0));
        *environment = result.duplicate();
        result
    }

    /// The statement as a closure in the host language's text.
    pub fn to_ruby(&self) -> (r: String)
        ensures
            r@ == ruby_stm(self@),
        decreases *self,
    {
        match self {
            Statement::DoNothing => ("-> e { e }").to_owned(),
            Statement::Assignment { name, expression } => {
                let mut s = ("-> e { e.merge({ :").to_owned();
                s.append(name.as_str());
                s.append(" => (");
                let e = expression.to_ruby();
                s.append(e.as_str());
                s.append(").call(e) }) }");
                s
            },
            Statement::If { condition, consequence, alternative } => {
                let mut s = ("-> e { if(").to_owned();
                let c = condition.to_ruby();
                s.append(c.as_str());
                s.append(").call(e) then (");
                let t = consequence.to_ruby();
                s.append(t.as_str());
                s.append(").call(e) else (");
                let a = alternative.to_ruby();
                s.append(a.as_str());
                s.append(").call(e) end }");
                s
            },
            Statement::Sequence { first, second } => {
                let mut s = ("-> e { (").to_owned();
                let snd = second.to_ruby();
                s.append(snd.as_str());
                s.append(").call((");
                let fst = first.to_ruby();
                s.append(fst.as_str());
                s.append(").call(e)) }");
                s
            },
            Statement::While { condition, body } => {
                let mut s = ("-> e { while (").to_owned();
                let c = condition.to_ruby();
                s.append(c.as_str());
                s.append(").call(e); e = (");
                let b = body.to_ruby();
                s.append(b.as_str());
                s.append(").call(e); end; e }");
                s
            },
        }
    }
}

} // verus!
