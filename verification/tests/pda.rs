use computation::dpda::DPDARulebook;
use computation::pda_configuration::{PDAConfiguration, PDARule};
use computation::stack::Stack;

#[test]
fn stack_test() {
    let stack = Stack::new(vec!['a', 'b', 'c', 'd', 'e']);
    assert_eq!(stack.top(), Some(&'a'));
    assert_eq!(stack.pop().pop().top(), Some(&'c'));
    assert_eq!(stack.push('x').push('y').top(), Some(&'y'));
    assert_eq!(stack.push('x').push('y').pop().top(), Some(&'x'));
}

#[test]
fn empty_stack_pops_to_empty() {
    let stack = Stack::new(vec![]);
    assert_eq!(stack.top(), None);
    assert_eq!(stack.pop().top(), None);
}

#[test]
fn pda_configuration_test() {
    let rule = PDARule::new(1, '(', 2, '$', vec!['b', '$']);
    let configuration = PDAConfiguration::new(1, Stack::new(vec!['$']));
    let expected = PDAConfiguration::new(2, Stack::new(vec!['b', '$']));
    assert_eq!(rule.follow(configuration), expected);
}

#[test]
fn pda_rule_applies_only_on_matching_top() {
    let rule = PDARule::new(1, '(', 2, '$', vec!['b', '$']);
    let matching = PDAConfiguration::new(1, Stack::new(vec!['$']));
    let wrong_top = PDAConfiguration::new(1, Stack::new(vec!['b']));
    let wrong_state = PDAConfiguration::new(2, Stack::new(vec!['$']));
    assert!(rule.is_applied_to(matching, '('));
    assert!(!rule.is_applied_to(wrong_top, '('));
    assert!(!rule.is_applied_to(wrong_state, '('));
}

#[test]
fn dpda_rulebook_balances_parentheses() {
    let rulebook = DPDARulebook::build(vec![
        (1, '(', 2, '$', vec!['b', '$']),
        (2, '(', 2, 'b', vec!['b', 'b']),
        (2, ')', 2, 'b', vec![]),
        (2, '0', 1, '$', vec!['$']),
    ]);
    let start = PDAConfiguration::new(1, Stack::new(vec!['$']));
    let c1 = rulebook.next_configuration(start, '(');
    assert_eq!(c1, PDAConfiguration::new(2, Stack::new(vec!['b', '$'])));
    let c2 = rulebook.next_configuration(c1, '(');
    assert_eq!(c2, PDAConfiguration::new(2, Stack::new(vec!['b', 'b', '$'])));
    let c3 = rulebook.next_configuration(c2, ')');
    assert_eq!(c3, PDAConfiguration::new(2, Stack::new(vec!['b', '$'])));
    let c4 = rulebook.next_configuration(c3, ')');
    assert_eq!(c4, PDAConfiguration::new(2, Stack::new(vec!['$'])));
    let c5 = rulebook.next_configuration(c4, '0');
    assert_eq!(c5, PDAConfiguration::new(1, Stack::new(vec!['$'])));
}
