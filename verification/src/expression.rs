//! Arithmetic and boolean expressions of the small imperative language.
//!
//! `Exp` is the mathematical form of an expression; the executable
//! `Expression` views to it. Small-step reduction (`exp_step`, one leftmost
//! step) and big-step evaluation (`exp_eval`) are specification functions;
//! the executable `reduce` and `evaluate` return exactly what they say, and
//! `lemma_exp_small_big` shows that repeated reduction reaches the big-step
//! value.

use vstd::prelude::*;
use vstd::string::StrSliceExecFns;

verus! {

/// The mathematical form of an expression.
pub enum Exp {
    Number(u32),
    Boolean(bool),
    Variable(Seq<char>),
    Add(Box<Exp>, Box<Exp>),
    Multiply(Box<Exp>, Box<Exp>),
    LessThan(Box<Exp>, Box<Exp>),
}

/// The environments expressions are judged in.
pub type SpecEnv = Map<Seq<char>, Exp>;

/// Numbers and booleans are values; everything else reduces.
pub open spec fn exp_is_value(e: Exp) -> bool {
    e matches Exp::Number(_) || e matches Exp::Boolean(_)
}

/// Every binding of the environment is a value.
pub open spec fn env_wf(env: SpecEnv) -> bool {
    forall|k: Seq<char>| env.dom().contains(k) ==> exp_is_value(#[trigger] env[k])
}

/// One small step of leftmost reduction; `None` on a type clash, an unbound
/// variable, an arithmetic overflow, or a value.
pub open spec fn exp_step(e: Exp, env: SpecEnv) -> Option<Exp>
    decreases e,
{
    match e {
        Exp::Add(l, r) => if !exp_is_value(*l) {
            match exp_step(*l, env) {
                Some(l2) => Some(Exp::Add(Box::new(l2), r)),
                None => None,
            }
        } else if !exp_is_value(*r) {
            match exp_step(*r, env) {
                Some(r2) => Some(Exp::Add(l, Box::new(r2))),
                None => None,
            }
        } else {
            match (*l, *r) {
                (Exp::Number(a), Exp::Number(b)) => if a + b <= u32::MAX {
                    Some(Exp::Number((a + b) as u32))
                } else {
                    None
                },
                _ => None,
            }
        },
        Exp::Multiply(l, r) => if !exp_is_value(*l) {
            match exp_step(*l, env) {
                Some(l2) => Some(Exp::Multiply(Box::new(l2), r)),
                None => None,
            }
        } else if !exp_is_value(*r) {
            match exp_step(*r, env) {
                Some(r2) => Some(Exp::Multiply(l, Box::new(r2))),
                None => None,
            }
        } else {
            match (*l, *r) {
                (Exp::Number(a), Exp::Number(b)) => if a * b <= u32::MAX {
                    Some(Exp::Number((a * b) as u32))
                } else {
                    None
                },
                _ => None,
            }
        },
        Exp::LessThan(l, r) => if !exp_is_value(*l) {
            match exp_step(*l, env) {
                Some(l2) => Some(Exp::LessThan(Box::new(l2), r)),
                None => None,
            }
        } else if !exp_is_value(*r) {
            match exp_step(*r, env) {
                Some(r2) => Some(Exp::LessThan(l, Box::new(r2))),
                None => None,
            }
        } else {
            match (*l, *r) {
                (Exp::Number(a), Exp::Number(b)) => Some(Exp::Boolean(a < b)),
                _ => None,
            }
        },
        Exp::Variable(n) => if env.dom().contains(n) {
            Some(env[n])
        } else {
            None
        },
        _ => None,
    }
}

/// Big-step evaluation to a value in one go, with the same error cases.
pub open spec fn exp_eval(e: Exp, env: SpecEnv) -> Option<Exp>
    decreases e,
{
    match e {
        Exp::Number(_) => Some(e),
        Exp::Boolean(_) => Some(e),
        Exp::Variable(n) => if env.dom().contains(n) {
            Some(env[n])
        } else {
            None
        },
        Exp::Add(l, r) => match (exp_eval(*l, env), exp_eval(*r, env)) {
            (Some(Exp::Number(a)), Some(Exp::Number(b))) => if a + b <= u32::MAX {
                Some(Exp::Number((a + b) as u32))
            } else {
                None
            },
            _ => None,
        },
        Exp::Multiply(l, r) => match (exp_eval(*l, env), exp_eval(*r, env)) {
            (Some(Exp::Number(a)), Some(Exp::Number(b))) => if a * b <= u32::MAX {
                Some(Exp::Number((a * b) as u32))
            } else {
                None
            },
            _ => None,
        },
        Exp::LessThan(l, r) => match (exp_eval(*l, env), exp_eval(*r, env)) {
            (Some(Exp::Number(a)), Some(Exp::Number(b))) => Some(Exp::Boolean(a < b)),
            _ => None,
        },
    }
}

/// A size that one reduction step strictly shrinks.
pub open spec fn exp_size(e: Exp) -> nat
    decreases e,
{
    match e {
        Exp::Number(_) => 1,
        Exp::Boolean(_) => 1,
        Exp::Variable(_) => 2,
        Exp::Add(l, r) => 1 + exp_size(*l) + exp_size(*r),
        Exp::Multiply(l, r) => 1 + exp_size(*l) + exp_size(*r),
        Exp::LessThan(l, r) => 1 + exp_size(*l) + exp_size(*r),
    }
}

/// In a well-formed environment, evaluation yields a value.
pub proof fn lemma_exp_eval_value(e: Exp, env: SpecEnv)
    requires
        env_wf(env),
        exp_eval(e, env).is_some(),
    ensures
        exp_is_value(exp_eval(e, env).unwrap()),
    decreases e,
{
}

/// One reduction step keeps the big-step value and shrinks the term: the
/// small-step relation simulates big-step evaluation.
pub proof fn lemma_exp_step_preserves_eval(e: Exp, env: SpecEnv)
    requires
        env_wf(env),
        !exp_is_value(e),
        exp_eval(e, env).is_some(),
    ensures
        exp_step(e, env).is_some(),
        exp_eval(exp_step(e, env).unwrap(), env) == exp_eval(e, env),
        exp_size(exp_step(e, env).unwrap()) < exp_size(e),
    decreases e,
{
    match e {
        Exp::Add(l, r) => {
            if !exp_is_value(*l) {
                lemma_exp_step_preserves_eval(*l, env);
            } else if !exp_is_value(*r) {
                lemma_exp_step_preserves_eval(*r, env);
            } else {
                lemma_exp_values_size(*l, *r);
            }
        }
        Exp::Multiply(l, r) => {
            if !exp_is_value(*l) {
                lemma_exp_step_preserves_eval(*l, env);
            } else if !exp_is_value(*r) {
                lemma_exp_step_preserves_eval(*r, env);
            } else {
                lemma_exp_values_size(*l, *r);
            }
        }
        Exp::LessThan(l, r) => {
            if !exp_is_value(*l) {
                lemma_exp_step_preserves_eval(*l, env);
            } else if !exp_is_value(*r) {
                lemma_exp_step_preserves_eval(*r, env);
            } else {
                lemma_exp_values_size(*l, *r);
            }
        }
        Exp::Variable(n) => {
            assert(env.dom().contains(n));
            assert(exp_is_value(env[n]));
            assert(exp_size(env[n]) == 1);
        }
        _ => {}
    }
}

proof fn lemma_exp_values_size(l: Exp, r: Exp)
    requires
        exp_is_value(l),
        exp_is_value(r),
    ensures
        exp_size(l) == 1,
        exp_size(r) == 1,
{
    match l {
        Exp::Number(_) => {},
        Exp::Boolean(_) => {},
        _ => {},
    }
    match r {
        Exp::Number(_) => {},
        Exp::Boolean(_) => {},
        _ => {},
    }
}

/// `n` reduction steps in a row.
pub open spec fn exp_step_n(e: Exp, env: SpecEnv, n: nat) -> Option<Exp>
    decreases n,
{
    if n == 0 {
        Some(e)
    } else {
        match exp_step(e, env) {
            Some(e2) => exp_step_n(e2, env, (n - 1) as nat),
            None => None,
        }
    }
}

/// Small-step and big-step agree on expressions: wherever big-step
/// evaluation yields a value, repeatedly applying `reduce` reaches exactly
/// that value.
pub proof fn lemma_exp_small_big(e: Exp, env: SpecEnv)
    requires
        env_wf(env),
        exp_eval(e, env).is_some(),
    ensures
        exists|n: nat| exp_step_n(e, env, n) == Some(exp_eval(e, env).unwrap()),
    decreases exp_size(e),
{
    if exp_is_value(e) {
        assert(exp_step_n(e, env, 0) == Some(e));
    } else {
        lemma_exp_step_preserves_eval(e, env);
        let e2 = exp_step(e, env).unwrap();
        lemma_exp_small_big(e2, env);
        let n2 = choose|n2: nat| exp_step_n(e2, env, n2) == Some(exp_eval(e2, env).unwrap());
        assert(exp_step_n(e, env, n2 + 1) == exp_step_n(e2, env, n2));
    }
}

/// An expression of the language: numbers, booleans, variables, sums,
/// products and comparisons.
#[derive(Debug)]
pub enum Expression {
    Number(u32),
    Boolean(bool),
    Add { left: Box<Expression>, right: Box<Expression> },
    Multiply { left: Box<Expression>, right: Box<Expression> },
    LessThan { left: Box<Expression>, right: Box<Expression> },
    Variable(String),
}

impl Expression {
    /// The mathematical form of the expression.
    pub open spec fn deep_form(self) -> Exp
        decreases self,
    {
        match self {
            Expression::Number(n) => Exp::Number(n),
            Expression::Boolean(b) => Exp::Boolean(b),
            Expression::Variable(name) => Exp::Variable(name@),
            Expression::Add { left, right } => Exp::Add(
                Box::new((*left).deep_form()),
                Box::new((*right).deep_form()),
            ),
            Expression::Multiply { left, right } => Exp::Multiply(
                Box::new((*left).deep_form()),
                Box::new((*right).deep_form()),
            ),
            Expression::LessThan { left, right } => Exp::LessThan(
                Box::new((*left).deep_form()),
                Box::new((*right).deep_form()),
            ),
        }
    }
}

impl View for Expression {
    type V = Exp;

    open spec fn view(&self) -> Exp {
        (*self).deep_form()
    }
}

impl Expression {
    /// A fresh expression with the same mathematical form.
    pub fn duplicate(&self) -> (r: Expression)
        ensures
            r@ == self@,
        decreases *self,
    {
        match self {
            Expression::Number(n) => Expression::Number(*n),
            Expression::Boolean(b) => Expression::Boolean(*b),
            Expression::Variable(name) => Expression::Variable(name.clone()),
            Expression::Add { left, right } => Expression::Add {
                left: Box::new(left.duplicate()),
                right: Box::new(right.duplicate()),
            },
            Expression::Multiply { left, right } => Expression::Multiply {
                left: Box::new(left.duplicate()),
                right: Box::new(right.duplicate()),
            },
            Expression::LessThan { left, right } => Expression::LessThan {
                left: Box::new(left.duplicate()),
                right: Box::new(right.duplicate()),
            },
        }
    }

    pub fn is_reducible(&self) -> (r: bool)
        ensures
            r == !exp_is_value(self@),
    {
        match self {
            Expression::Number(_) => false,
            Expression::Boolean(_) => false,
            _ => true,
        }
    }

    /// One small step of reduction. The step must be possible: a type
    /// clash, an unbound variable, an overflow or a value is ruled out.
    pub fn reduce(&self, environment: &Environment) -> (r: Expression)
        requires
            exp_step(self@, environment@).is_some(),
        ensures
            Some(r@) == exp_step(self@, environment@),
        decreases *self,
    {
        match self {
            Expression::Add { left, right } => {
                if left.is_reducible() {
                    Expression::Add {
                        left: Box::new(left.reduce(environment)),
                        right: Box::new(right.duplicate()),
                    }
                } else if right.is_reducible() {
                    Expression::Add {
                        left: Box::new(left.duplicate()),
                        right: Box::new(right.reduce(environment)),
                    }
                } else {
                    match (&**left, &**right) {
                        (Expression::Number(a), Expression::Number(b)) => Expression::Number(
                            *a + *b,
                        ),
                        _ => unreached(),
                    }
                }
            },
            Expression::Multiply { left, right } => {
                if left.is_reducible() {
                    Expression::Multiply {
                        left: Box::new(left.reduce(environment)),
                        right: Box::new(right.duplicate()),
                    }
                } else if right.is_reducible() {
                    Expression::Multiply {
                        left: Box::new(left.duplicate()),
                        right: Box::new(right.reduce(environment)),
                    }
                } else {
                    match (&**left, &**right) {
                        (Expression::Number(a), Expression::Number(b)) => Expression::Number(
                            *a * *b,
                        ),
                        _ => unreached(),
                    }
                }
            },
            Expression::LessThan { left, right } => {
                if left.is_reducible() {
                    Expression::LessThan {
                        left: Box::new(left.reduce(environment)),
                        right: Box::new(right.duplicate()),
                    }
                } else if right.is_reducible() {
                    Expression::LessThan {
                        left: Box::new(left.duplicate()),
                        right: Box::new(right.reduce(environment)),
                    }
                } else {
                    match (&**left, &**right) {
                        (Expression::Number(a), Expression::Number(b)) => Expression::Boolean(
                            *a < *b,
                        ),
                        _ => unreached(),
                    }
                }
            },
            Expression::Variable(name) => {
                match environment.get(name.as_str()) {
                    Some(e) => e.duplicate(),
                    None => unreached(),
                }
            },
            _ => unreached(),
        }
    }

    /// Big-step evaluation to a value in one call.
    pub fn evaluate(&self, environment: &Environment) -> (r: Expression)
        requires
            exp_eval(self@, environment@).is_some(),
        ensures
            Some(r@) == exp_eval(self@, environment@),
        decreases *self,
    {
        match self {
            Expression::Number(n) => Expression::Number(*n),
            Expression::Boolean(b) => Expression::Boolean(*b),
            Expression::Variable(name) => {
                match environment.get(name.as_str()) {
                    Some(e) => e.duplicate(),
                    None => unreached(),
                }
            },
            Expression::Add { left, right } => {
                let lv = left.evaluate(environment);
                let rv = right.evaluate(environment);
                match (lv, rv) {
                    (Expression::Number(a), Expression::Number(b)) => Expression::Number(a + b),
                    _ => unreached(),
                }
            },
            Expression::Multiply { left, right } => {
                let lv = left.evaluate(environment);
                let rv = right.evaluate(environment);
                match (lv, rv) {
                    (Expression::Number(a), Expression::Number(b)) => Expression::Number(a * b),
                    _ => unreached(),
                }
            },
            Expression::LessThan { left, right } => {
                let lv = left.evaluate(environment);
                let rv = right.evaluate(environment);
                match (lv, rv) {
                    (Expression::Number(a), Expression::Number(b)) => Expression::Boolean(a < b),
                    _ => unreached(),
                }
            },
        }
    }
}

/// The text of the closure the expression translates to: applied to an
/// environment, it yields the expression's big-step value in the host
/// language.
pub open spec fn ruby_exp(e: Exp) -> Seq<char>
    decreases e,
{
    match e {
        Exp::Number(n) => ("-> e { ")@ + crate::text::dec_str(n as nat) + (" }")@,
        Exp::Boolean(b) => if b {
            ("-> e { true }")@
        } else {
            ("-> e { false }")@
        },
        Exp::Variable(n) => ("-> e { e[:")@ + n + ("] }")@,
        Exp::Add(l, r) => ("-> e { (")@ + ruby_exp(*l) + (").call(e) + (")@ + ruby_exp(*r) + (
        ").call(e) }")@,
        Exp::Multiply(l, r) => ("-> e { (")@ + ruby_exp(*l) + (").call(e) * (")@ + ruby_exp(*r)
            + (").call(e) }")@,
        Exp::LessThan(l, r) => ("-> e { (")@ + ruby_exp(*l) + (").call(e) < (")@ + ruby_exp(*r)
            + (").call(e) }")@,
    }
}

impl Expression {
    /// The expression as a closure in the host language's text.
    pub fn to_ruby(&self) -> (r: String)
        ensures
            r@ == ruby_exp(self@),
        decreases *self,
    {
        match self {
            Expression::Number(n) => {
                let mut s = ("-> e { ").to_owned();
                let d = crate::text::u32_to_string(*n);
                s.append(d.as_str());
                s.append(" }");
                s
            },
            Expression::Boolean(b) => {
                if *b {
                    ("-> e { true }").to_owned()
                } else {
                    ("-> e { false }").to_owned()
                }
            },
            Expression::Variable(name) => {
                let mut s = ("-> e { e[:").to_owned();
                s.append(name.as_str());
                s.append("] }");
                s
            },
            Expression::Add { left, right } => {
                let mut s = ("-> e { (").to_owned();
                let l = left.to_ruby();
                s.append(l.as_str());
                s.append(").call(e) + (");
                let t = right.to_ruby();
                s.append(t.as_str());
                s.append(").call(e) }");
                s
            },
            Expression::Multiply { left, right } => {
                let mut s = ("-> e { (").to_owned();
                let l = left.to_ruby();
                s.append(l.as_str());
                s.append(").call(e) * (");
                let t = right.to_ruby();
                s.append(t.as_str());
                s.append(").call(e) }");
                s
            },
            Expression::LessThan { left, right } => {
                let mut s = ("-> e { (").to_owned();
                let l = left.to_ruby();
                s.append(l.as_str());
                s.append(").call(e) < (");
                let t = right.to_ruby();
                s.append(t.as_str());
                s.append(").call(e) }");
                s
            },
        }
    }
}

/// The mapping an entry list stands for: a later entry for the same name
/// overrides an earlier one.
pub open spec fn env_map(entries: Seq<(String, Expression)>) -> SpecEnv
    decreases entries.len(),
{
    if entries.len() == 0 {
        Map::empty()
    } else {
        env_map(entries.drop_last()).insert(entries.last().0@, entries.last().1@)
    }
}

/// A mapping from variable name to expression value. Assignment only ever
/// adds or overrides a binding, so the key set grows monotonically.
#[derive(Debug)]
pub struct Environment {
    entries: Vec<(String, Expression)>,
}

impl View for Environment {
    type V = SpecEnv;

    closed spec fn view(&self) -> SpecEnv {
        env_map(self.entries@)
    }
}

proof fn lemma_env_lookup(entries: Seq<(String, Expression)>, k: Seq<char>, i: int)
    requires
        0 <= i < entries.len(),
        entries[i].0@ == k,
        forall|j: int| i < j < entries.len() ==> (#[trigger] entries[j]).0@ != k,
    ensures
        env_map(entries).dom().contains(k),
        env_map(entries)[k] == entries[i].1@,
    decreases entries.len(),
{
    if i == entries.len() - 1 {
    } else {
        assert(entries.last().0@ != k);
        lemma_env_lookup(entries.drop_last(), k, i);
    }
}

proof fn lemma_env_no_key(entries: Seq<(String, Expression)>, k: Seq<char>)
    requires
        forall|j: int| 0 <= j < entries.len() ==> (#[trigger] entries[j]).0@ != k,
    ensures
        !env_map(entries).dom().contains(k),
    decreases entries.len(),
{
    if entries.len() > 0 {
        lemma_env_no_key(entries.drop_last(), k);
    }
}

impl Environment {
    pub fn new() -> (r: Environment)
        ensures
            r@ == Map::<Seq<char>, Exp>::empty(),
    {
        Environment { entries: Vec::new() }
    }

    /// Bind `name` to `value`, overriding any earlier binding.
    pub fn insert(&mut self, name: &str, value: Expression)
        ensures
            final(self)@ == old(self)@.insert(name@, value@),
    {
        let entry = (name.to_owned(), value);
        proof {
            let entries = self.entries@.push((entry.0, entry.1));
            assert(entries.drop_last() =~= self.entries@);
        }
        self.entries.push(entry);
    }

    /// The value bound to `name`, if any: exactly the mapping's entry.
    pub fn get(&self, name: &str) -> (r: Option<&Expression>)
        ensures
            match r {
                Some(e) => self@.dom().contains(name@) && e@ == self@[name@],
                None => !self@.dom().contains(name@),
            },
    {
        let mut i: usize = self.entries.len();
        while i > 0
            invariant
                i <= self.entries@.len(),
                forall|j: int|
                    i <= j < self.entries@.len() ==> (#[trigger] self.entries@[j]).0@ != name@,
            decreases i,
        {
            i -= 1;
            let entry = &self.entries[i];
            if crate::text::str_eq(entry.0.as_str(), name) {
                proof {
                    lemma_env_lookup(self.entries@, name@, i as int);
                }
                return Some(&entry.1);
            }
        }
        proof {
            lemma_env_no_key(self.entries@, name@);
        }
        None
    }

    /// A fresh environment holding the same mapping.
    pub fn duplicate(&self) -> (r: Environment)
        ensures
            r@ == self@,
    {
        let mut entries: Vec<(String, Expression)> = Vec::new();
        let mut i: usize = 0;
        while i < self.entries.len()
            invariant
                i <= self.entries@.len(),
                entries@.len() == i,
                forall|j: int|
                    0 <= j < i ==> (#[trigger] entries@[j]).0@ == self.entries@[j].0@
                        && entries@[j].1@ == self.entries@[j].1@,
            decreases self.entries@.len() - i,
        {
            let e = &self.entries[i];
            entries.push((e.0.clone(), e.1.duplicate()));
            i += 1;
        }
        let r = Environment { entries };
        proof {
            lemma_env_map_congruent(r.entries@, self.entries@);
        }
        r
    }
}

proof fn lemma_env_map_congruent(a: Seq<(String, Expression)>, b: Seq<(String, Expression)>)
    requires
        a.len() == b.len(),
        forall|j: int|
            0 <= j < a.len() ==> (#[trigger] a[j]).0@ == b[j].0@ && a[j].1@ == b[j].1@,
    ensures
        env_map(a) == env_map(b),
    decreases a.len(),
{
    if a.len() > 0 {
        assert(forall|j: int|
            0 <= j < a.drop_last().len() ==> (#[trigger] a.drop_last()[j]) == a[j]
                && b.drop_last()[j] == b[j]);
        lemma_env_map_congruent(a.drop_last(), b.drop_last());
    }
}

} // verus!
