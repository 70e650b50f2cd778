use computation::pattern::Pattern;
use computation::pattern_parser::{
    brackets_parser, choose_parser, concatnate_parser, empty_parser, literal_parser, parse,
    repeat_parser,
};

#[test]
fn pattern_test() {
    let pattern = Pattern::Repeat(Box::new(Pattern::Choose {
        first: Box::new(Pattern::Concatnate {
            first: Box::new(Pattern::Literal('a')),
            second: Box::new(Pattern::Literal('b')),
        }),
        second: Box::new(Pattern::Literal('a')),
    }));

    assert_eq!(pattern.to_regex_string(), "(ab|a)*");
}

#[test]
fn empty_to_nfa_design() {
    assert!(Pattern::Empty.is_match(""));
    assert!(!Pattern::Empty.is_match("a"));
}

#[test]
fn concatnate_to_nfa_design() {
    let pattern = Pattern::Concatnate {
        first: Box::new(Pattern::Literal('a')),
        second: Box::new(Pattern::Literal('b')),
    };

    assert!(pattern.is_match("ab"));
    assert!(!pattern.is_match("aa"));
}

#[test]
fn choose_to_nfa_design() {
    let pattern = Pattern::Choose {
        first: Box::new(Pattern::Literal('a')),
        second: Box::new(Pattern::Literal('b')),
    };

    assert!(pattern.is_match("a"));
    assert!(pattern.is_match("b"));
    assert!(!pattern.is_match("c"));
}

#[test]
fn repeat_to_nfa_design() {
    let pattern = Pattern::Repeat(Box::new(Pattern::Literal('a')));

    assert!(pattern.is_match(""));
    assert!(pattern.is_match("a"));
    assert!(pattern.is_match("aaaa"));
    assert!(!pattern.is_match("ab"));
}

#[test]
fn literal_parser_test() {
    let chars = vec!['a'];
    let (ast, _) = literal_parser(&chars, 0).unwrap();
    assert_eq!(ast, Pattern::Literal('a'));

    let bad = vec!['|'];
    let parsed = literal_parser(&bad, 0);
    assert!(parsed.is_none());
}

#[test]
fn empty_parser_test() {
    let chars: Vec<char> = vec![];
    let (ast, _) = empty_parser(&chars, 0).unwrap();
    assert_eq!(ast, Pattern::Empty);
}

#[test]
fn brackets_parser_test() {
    let chars: Vec<char> = "(a)".chars().collect();
    let (ast, _) = brackets_parser(&chars, 0).unwrap();
    assert_eq!(ast, Pattern::Literal('a'));
}

#[test]
fn repeat_parser_test() {
    let chars: Vec<char> = "a*".chars().collect();
    let (ast, _) = repeat_parser(&chars, 0).unwrap();
    assert_eq!(ast, Pattern::Repeat(Box::new(Pattern::Literal('a'))));
}

#[test]
fn concatnate_parser_test() {
    let chars: Vec<char> = "a*b".chars().collect();
    let (ast, _) = concatnate_parser(&chars, 0).unwrap();
    let expect = Pattern::Concatnate {
        first: Box::new(Pattern::Repeat(Box::new(Pattern::Literal('a')))),
        second: Box::new(Pattern::Literal('b')),
    };
    assert_eq!(ast, expect);
}

#[test]
fn choose_parser_test() {
    let chars: Vec<char> = "(a|)".chars().collect();
    let (ast, _) = choose_parser(&chars, 0).unwrap();
    let expect = Pattern::Choose {
        first: Box::new(Pattern::Literal('a')),
        second: Box::new(Pattern::Empty),
    };
    assert_eq!(ast, expect);
}

#[test]
fn parse_and_match() {
    let pattern = parse("(a(|b))*").unwrap();
    assert!(pattern.is_match("abaab"));
    assert!(!pattern.is_match("abba"));
}

#[test]
fn parse_rejects_residue_and_bad_input() {
    assert_eq!(parse(""), Some(Pattern::Empty));
    assert!(parse("a)").is_none());
    assert!(parse("(a").is_none());
    assert!(parse("*").is_none());
    assert_eq!(parse("a"), Some(Pattern::Literal('a')));
}

#[test]
fn print_parse_round_trip_cases() {
    // parse, print and parse again: the tree is unchanged
    for src in ["", "a", "ab", "a|b", "(ab|a)*", "a*b", "(a(|b))*", "a|", "|a"] {
        let parsed = parse(src).unwrap();
        let printed = parsed.to_regex_string();
        let reparsed = parse(printed.as_str()).unwrap();
        assert_eq!(parsed, reparsed);
    }
}

#[test]
fn precedence_values() {
    assert_eq!(Pattern::Empty.precedence(), 3);
    assert_eq!(Pattern::Literal('x').precedence(), 3);
    assert_eq!(
        Pattern::Concatnate {
            first: Box::new(Pattern::Literal('a')),
            second: Box::new(Pattern::Literal('b')),
        }
        .precedence(),
        1
    );
    assert_eq!(
        Pattern::Choose {
            first: Box::new(Pattern::Literal('a')),
            second: Box::new(Pattern::Literal('b')),
        }
        .precedence(),
        0
    );
    assert_eq!(Pattern::Repeat(Box::new(Pattern::Literal('a'))).precedence(), 2);
}
