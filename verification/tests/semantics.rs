use computation::expression::{Environment, Expression};
use computation::machine::Machine;
use computation::statement::Statement;

fn var(name: &str) -> Expression {
    Expression::Variable(name.to_owned())
}

fn num(n: u32) -> Expression {
    Expression::Number(n)
}

fn add(l: Expression, r: Expression) -> Expression {
    Expression::Add { left: Box::new(l), right: Box::new(r) }
}

fn mul(l: Expression, r: Expression) -> Expression {
    Expression::Multiply { left: Box::new(l), right: Box::new(r) }
}

fn less(l: Expression, r: Expression) -> Expression {
    Expression::LessThan { left: Box::new(l), right: Box::new(r) }
}

fn assign(name: &str, e: Expression) -> Statement {
    Statement::Assignment { name: name.to_owned(), expression: e }
}

fn run_machine(mut machine: Machine) -> Environment {
    while machine.statement.is_reducible() {
        machine.step();
    }
    machine.environment
}

#[test]
fn machine_runs_increment() {
    let mut environment = Environment::new();
    environment.insert("x", num(2));
    let machine = Machine {
        statement: assign("x", add(var("x"), num(1))),
        environment,
    };
    let result = run_machine(machine);
    assert!(matches!(result.get("x"), Some(Expression::Number(3))));
}

#[test]
fn machine_runs_while_loop() {
    let mut environment = Environment::new();
    environment.insert("x", num(1));
    let machine = Machine {
        statement: Statement::While {
            condition: less(var("x"), num(5)),
            body: Box::new(assign("x", mul(var("x"), num(3)))),
        },
        environment,
    };
    let result = run_machine(machine);
    assert!(matches!(result.get("x"), Some(Expression::Number(9))));
}

#[test]
fn evaluate_agrees_with_machine() {
    // big-step evaluation gives the same final environment as stepping
    let stmt = Statement::While {
        condition: less(var("x"), num(5)),
        body: Box::new(assign("x", mul(var("x"), num(3)))),
    };
    let mut env_eval = Environment::new();
    env_eval.insert("x", num(1));
    let mut env_machine = Environment::new();
    env_machine.insert("x", num(1));

    let evaluated = stmt.duplicate().evaluate(&mut env_eval);
    let stepped = run_machine(Machine { statement: stmt, environment: env_machine });
    assert!(matches!(evaluated.get("x"), Some(Expression::Number(9))));
    assert!(matches!(stepped.get("x"), Some(Expression::Number(9))));
}

#[test]
fn expression_reduces_stepwise() {
    let mut environment = Environment::new();
    environment.insert("x", num(2));
    environment.insert("y", num(5));
    let e = less(add(var("x"), num(2)), var("y"));
    let e1 = e.reduce(&environment);
    let e2 = e1.reduce(&environment);
    let e3 = e2.reduce(&environment);
    let e4 = e3.reduce(&environment);
    assert!(!e4.is_reducible());
    assert!(matches!(e4, Expression::Boolean(true)));
}

#[test]
fn expression_big_step_evaluates() {
    let mut environment = Environment::new();
    environment.insert("x", num(2));
    environment.insert("y", num(5));
    let e = less(add(var("x"), num(2)), var("y"));
    assert!(matches!(e.evaluate(&environment), Expression::Boolean(true)));
    assert!(matches!(num(23).evaluate(&Environment::new()), Expression::Number(23)));
}

#[test]
fn sequence_statement_runs_in_order() {
    let stmt = Statement::Sequence {
        first: Box::new(assign("x", add(num(1), num(1)))),
        second: Box::new(assign("y", add(var("x"), num(3)))),
    };
    let mut environment = Environment::new();
    let result = stmt.evaluate(&mut environment);
    assert!(matches!(result.get("x"), Some(Expression::Number(2))));
    assert!(matches!(result.get("y"), Some(Expression::Number(5))));
}

#[test]
fn if_statement_picks_branch() {
    let stmt = Statement::If {
        condition: var("x"),
        consequence: Box::new(assign("y", num(1))),
        alternative: Box::new(assign("y", num(2))),
    };
    let mut environment = Environment::new();
    environment.insert("x", Expression::Boolean(true));
    let result = run_machine(Machine { statement: stmt, environment });
    assert!(matches!(result.get("y"), Some(Expression::Number(1))));
}

#[test]
fn environment_grows_monotonically() {
    // each machine step keeps every existing binding
    let mut environment = Environment::new();
    environment.insert("x", num(2));
    let mut machine = Machine {
        statement: assign("y", add(var("x"), num(1))),
        environment,
    };
    while machine.statement.is_reducible() {
        machine.step();
        assert!(machine.environment.get("x").is_some());
    }
    assert!(matches!(machine.environment.get("x"), Some(Expression::Number(2))));
    assert!(matches!(machine.environment.get("y"), Some(Expression::Number(3))));
}

#[test]
fn environment_insert_overrides() {
    let mut environment = Environment::new();
    environment.insert("x", num(1));
    environment.insert("x", num(7));
    assert!(matches!(environment.get("x"), Some(Expression::Number(7))));
    assert!(environment.get("z").is_none());
}

#[test]
fn to_ruby_do_nothing() {
    assert_eq!(Statement::DoNothing.to_ruby(), "-> e { e }");
}

#[test]
fn to_ruby_assignment() {
    let stmt = assign("x", add(var("x"), num(1)));
    assert_eq!(
        stmt.to_ruby(),
        "-> e { e.merge({ :x => (-> e { (-> e { e[:x] }).call(e) + (-> e { 1 }).call(e) }).call(e) }) }"
    );
}

#[test]
fn to_ruby_while() {
    let stmt = Statement::While {
        condition: less(var("x"), num(5)),
        body: Box::new(assign("x", mul(var("x"), num(3)))),
    };
    assert_eq!(
        stmt.to_ruby(),
        "-> e { while (-> e { (-> e { e[:x] }).call(e) < (-> e { 5 }).call(e) }).call(e); \
         e = (-> e { e.merge({ :x => (-> e { (-> e { e[:x] }).call(e) * (-> e { 3 }).call(e) }).call(e) }) }).call(e); end; e }"
    );
}

#[test]
fn to_ruby_numbers_and_booleans() {
    assert_eq!(num(23).to_ruby(), "-> e { 23 }");
    assert_eq!(num(0).to_ruby(), "-> e { 0 }");
    assert_eq!(Expression::Boolean(false).to_ruby(), "-> e { false }");
}
