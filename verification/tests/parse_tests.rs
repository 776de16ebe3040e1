use patterns::parse;

fn postfix_of(input: &str) -> String {
    let tree = parse(input).unwrap_or_else(|_| panic!("{:?} should parse", input));
    tree.postfix().into_iter().collect()
}

fn fails(input: &str) -> bool {
    parse(input).is_err()
}

#[test]
fn kleene_binds_tighter_than_concatenation() {
    assert_eq!(postfix_of("a*b"), "a*b.");
    assert_eq!(postfix_of("a*b*"), "a*b*.");
    assert_eq!(postfix_of("ab*"), "ab*.");
}

#[test]
fn alternation_is_left_associative() {
    assert_eq!(postfix_of("a|b"), "ab|");
    assert_eq!(postfix_of("a|b|c"), "ab|c|");
}

#[test]
fn concatenation_is_left_associative() {
    assert_eq!(postfix_of("ab"), "ab.");
    assert_eq!(postfix_of("abc"), "ab.c.");
}

#[test]
fn concatenation_binds_tighter_than_alternation() {
    assert_eq!(postfix_of("ab|c"), "ab.c|");
    assert_eq!(postfix_of("a|bc"), "abc.|");
}

#[test]
fn groups_override_precedence() {
    assert_eq!(postfix_of("a(b|c)"), "abc|.");
    assert_eq!(postfix_of("(ab)*"), "ab.*");
}

#[test]
fn combined_pattern() {
    assert_eq!(postfix_of("(a|b)*a(a|b)"), "ab|*a.ab|.");
}

#[test]
fn repeated_kleene_folds() {
    assert_eq!(postfix_of("a**"), "a**");
}

#[test]
fn digits_and_uppercase_are_literals() {
    assert_eq!(postfix_of("A0"), "A0.");
    assert_eq!(postfix_of("z9|Q"), "z9.Q|");
}

#[test]
fn empty_input_fails() {
    assert!(fails(""));
}

#[test]
fn parentheses_are_transparent() {
    assert_eq!(postfix_of("(a)"), postfix_of("a"));
    assert_eq!(postfix_of("(a|b)"), postfix_of("a|b"));
    assert_eq!(postfix_of("(a*b)"), postfix_of("a*b"));
    assert_eq!(postfix_of("((ab))"), postfix_of("ab"));
}

#[test]
fn leading_or_trailing_pipe_fails() {
    assert!(fails("|a"));
    assert!(fails("a|"));
    assert!(fails("|"));
    assert!(fails("a||b"));
}

#[test]
fn star_without_operand_fails() {
    assert!(fails("*"));
    assert!(fails("(*)"));
    assert!(fails("*a"));
    assert!(fails("|*"));
}

#[test]
fn unbalanced_parentheses_fail() {
    assert!(fails("(a"));
    assert!(fails("a)"));
    assert!(fails("(abc"));
    assert!(fails("abc)"));
    assert!(fails("()"));
    assert!(fails("("));
    assert!(fails(")"));
}

#[test]
fn foreign_characters_fail() {
    assert!(fails("%"));
    assert!(fails("a%b"));
    assert!(fails("a b"));
    assert!(fails("a+b"));
    assert!(fails("émile"));
}
