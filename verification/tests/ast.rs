use gambit::parse::parse_span;
use gambit::{AssertCall, Everywhere, FunctionBoundary, NodeTest, Nowhere, Role, SolAST};

struct Named(&'static str);

impl NodeTest for Named {
    fn holds(&self, node: &SolAST) -> bool {
        self.test(node)
    }

    fn test(&self, node: &SolAST) -> bool {
        node.name.as_deref() == Some(self.0)
    }
}

struct OfKind(&'static str);

impl NodeTest for OfKind {
    fn holds(&self, node: &SolAST) -> bool {
        self.test(node)
    }

    fn test(&self, node: &SolAST) -> bool {
        node.node_type.as_deref() == Some(self.0)
    }
}

fn leaf(kind: &str, name: &str, start: usize, end: usize) -> SolAST {
    SolAST::new(kind, start, end).with_name(name)
}

/// f(a, g(b))  with  f at 0..1, a at 2..3, g(b) at 5..9, g at 5..6, b at 7..8
fn nested_call() -> SolAST {
    let inner = SolAST::new("FunctionCall", 5, 9)
        .with_part(Role::Expression, leaf("Identifier", "g", 5, 6))
        .with_part(Role::Argument, leaf("Identifier", "b", 7, 8));
    SolAST::new("FunctionCall", 0, 10)
        .with_part(Role::Expression, leaf("Identifier", "f", 0, 1))
        .with_part(Role::Argument, leaf("Identifier", "a", 2, 3))
        .with_part(Role::Argument, inner)
}

fn names(nodes: &[&SolAST]) -> Vec<String> {
    nodes.iter().map(|n| n.name.clone().unwrap_or_else(|| format!("<{}>", n.node_type.clone().unwrap_or_default()))).collect()
}

#[test]
fn new_node_has_kind_and_bounds_only() {
    let node = SolAST::new("Block", 3, 9);
    assert_eq!(node.node_type().map(|s| s.as_str()), Some("Block"));
    assert_eq!(node.get_bounds(), (3, 9));
    assert!(node.name().is_none());
    assert!(node.operator().is_none());
    assert!(node.children.is_empty());
}

#[test]
fn unknown_node_has_nothing() {
    let node = SolAST::unknown();
    assert!(node.node_type().is_none());
    assert!(node.bounds.is_none());
    assert!(node.expression().is_none());
    assert!(node.arguments().is_empty());
}

#[test]
fn builders_set_name_and_operator() {
    let node = SolAST::new("BinaryOperation", 0, 5).with_operator("-").with_name("n");
    assert_eq!(node.operator().map(|s| s.as_str()), Some("-"));
    assert_eq!(node.name().map(|s| s.as_str()), Some("n"));
    assert_eq!(node.get_bounds(), (0, 5));
}

#[test]
fn navigation_finds_the_parts_by_role() {
    let node = SolAST::new("BinaryOperation", 0, 5)
        .with_part(Role::Other, leaf("X", "other", 0, 0))
        .with_part(Role::RightExpression, leaf("Identifier", "r", 4, 5))
        .with_part(Role::LeftExpression, leaf("Identifier", "l", 0, 1))
        .with_part(Role::Condition, leaf("Identifier", "c", 0, 1))
        .with_part(Role::Expression, leaf("Identifier", "e", 0, 1));
    assert_eq!(node.left_expression().unwrap().name.as_deref(), Some("l"));
    assert_eq!(node.right_expression().unwrap().name.as_deref(), Some("r"));
    assert_eq!(node.condition().unwrap().name.as_deref(), Some("c"));
    assert_eq!(node.expression().unwrap().name.as_deref(), Some("e"));
    assert!(node.arguments().is_empty());
    assert!(node.statements().is_empty());
}

#[test]
fn navigation_takes_the_first_part_of_a_role() {
    let node = SolAST::new("X", 0, 5)
        .with_part(Role::Expression, leaf("Identifier", "one", 0, 1))
        .with_part(Role::Expression, leaf("Identifier", "two", 0, 1));
    assert_eq!(node.expression().unwrap().name.as_deref(), Some("one"));
    assert_eq!(node.find_part(Role::Expression).unwrap().name.as_deref(), Some("one"));
    assert!(node.find_part(Role::Condition).is_none());
}

#[test]
fn arguments_and_statements_come_in_order() {
    let call = nested_call();
    let arguments = call.arguments();
    assert_eq!(arguments.len(), 2);
    assert_eq!(arguments[0].name.as_deref(), Some("a"));
    assert_eq!(arguments[1].node_type.as_deref(), Some("FunctionCall"));
    let block = SolAST::new("Block", 0, 9)
        .with_part(Role::Statement, leaf("S", "s1", 0, 3))
        .with_part(Role::Other, leaf("S", "no", 0, 0))
        .with_part(Role::Statement, leaf("S", "s2", 3, 6))
        .with_part(Role::Statement, leaf("S", "s3", 6, 9));
    assert_eq!(names(&block.statements()), vec!["s1", "s2", "s3"]);
    assert_eq!(names(&block.find_parts(Role::Other)), vec!["no"]);
}

#[test]
fn get_text_is_the_slice_of_the_source_for_every_node() {
    let source = b"f(a, g(b))";
    let call = nested_call();
    let all = call.traverse(&Everywhere, &Nowhere, &Everywhere);
    assert_eq!(all.len(), 6);
    for node in all {
        let (start, end) = node.get_bounds();
        assert_eq!(node.get_text(source), source[start..end].to_vec());
    }
    assert_eq!(call.arguments()[1].get_text(source), b"g(b)".to_vec());
}

#[test]
fn replace_in_source_with_own_text_changes_nothing() {
    let source = b"f(a, g(b))";
    let call = nested_call();
    for node in call.traverse(&Everywhere, &Nowhere, &Everywhere) {
        let own = node.get_text(source);
        assert_eq!(node.replace_in_source(source, &own), source.to_vec());
    }
}

#[test]
fn replace_part_replaces_the_range() {
    let call = nested_call();
    assert_eq!(call.replace_part(b"f(a, g(b))", b"zz", 2, 3), b"f(zz, g(b))".to_vec());
}

#[test]
fn replace_in_source_replaces_the_node() {
    let call = nested_call();
    let arguments = call.arguments();
    assert_eq!(arguments[1].replace_in_source(b"f(a, g(b))", b"1"), b"f(a, 1)".to_vec());
}

#[test]
fn replace_multiple_swaps_with_the_texts_of_the_source() {
    let source = b"f(a, g(b))";
    let call = nested_call();
    let arguments = call.arguments();
    let first = arguments[0].get_text(source);
    let second = arguments[1].get_text(source);
    let out = call.replace_multiple(source, vec![(arguments[0], second.clone()), (arguments[1], first.clone())]);
    assert_eq!(out, b"f(g(b), a)".to_vec());
    let other_order = call.replace_multiple(source, vec![(arguments[1], first), (arguments[0], second)]);
    assert_eq!(other_order, b"f(g(b), a)".to_vec());
}

#[test]
fn comment_out_wraps_the_node_text() {
    let source = b"a; b; c;";
    let statement = SolAST::new("ExpressionStatement", 3, 5);
    assert_eq!(statement.comment_out(source), b"a; /*b;*/ c;".to_vec());
}

#[test]
fn traverse_out_of_scope_collects_nothing() {
    let call = nested_call();
    assert!(call.traverse(&Everywhere, &Nowhere, &Nowhere).is_empty());
}

#[test]
fn traverse_is_in_pre_order() {
    let call = nested_call();
    let all = call.traverse(&Everywhere, &Nowhere, &Everywhere);
    assert_eq!(names(&all), vec!["<FunctionCall>", "f", "a", "<FunctionCall>", "g", "b"]);
}

#[test]
fn traverse_collects_inside_the_accepted_node_only() {
    let call = nested_call();
    let inside = call.traverse(&Everywhere, &Nowhere, &Named("a"));
    assert_eq!(names(&inside), vec!["a"]);
    let inner = call.traverse(&OfKind("Identifier"), &Nowhere, &Named("g"));
    assert_eq!(names(&inner), vec!["g"]);
}

#[test]
fn traverse_leaves_out_the_skipped_node_and_all_below_it() {
    let call = nested_call();
    let skip_inner = OfKind("Identifier");
    let found = call.traverse(&Everywhere, &skip_inner, &Everywhere);
    assert_eq!(names(&found), vec!["<FunctionCall>", "<FunctionCall>"]);
    let root = SolAST::new("Block", 0, 10).with_part(Role::Statement, nested_call());
    let found = root.traverse(&Everywhere, &OfKind("FunctionCall"), &Everywhere);
    assert_eq!(names(&found), vec!["<Block>"]);
}

#[test]
fn traverse_skip_wins_over_accept() {
    let call = nested_call();
    let found = call.traverse(&Everywhere, &OfKind("FunctionCall"), &OfKind("FunctionCall"));
    assert!(found.is_empty());
}

#[test]
fn traverse_visits_what_the_visit_hook_takes() {
    let call = nested_call();
    let found = call.traverse(&OfKind("Identifier"), &Nowhere, &Everywhere);
    assert_eq!(names(&found), vec!["f", "a", "g", "b"]);
}

#[test]
fn assert_call_and_function_boundary_hooks() {
    let assertion = SolAST::new("FunctionCall", 0, 9)
        .with_part(Role::Expression, leaf("Identifier", "assert", 0, 6))
        .with_part(Role::Argument, leaf("Identifier", "x", 7, 8));
    assert!(AssertCall.test(&assertion));
    assert!(!AssertCall.test(&nested_call()));
    assert!(!AssertCall.test(&leaf("Identifier", "assert", 0, 6)));
    assert!(FunctionBoundary.test(&SolAST::new("FunctionDefinition", 0, 1)));
    assert!(!FunctionBoundary.test(&SolAST::new("FunctionCall", 0, 1)));
    assert!(!FunctionBoundary.test(&SolAST::unknown()));
}

#[test]
fn role_from_key() {
    assert_eq!(Role::from_key("expression"), Role::Expression);
    assert_eq!(Role::from_key("leftExpression"), Role::LeftExpression);
    assert_eq!(Role::from_key("rightExpression"), Role::RightExpression);
    assert_eq!(Role::from_key("condition"), Role::Condition);
    assert_eq!(Role::from_key("arguments"), Role::Argument);
    assert_eq!(Role::from_key("statements"), Role::Statement);
    assert_eq!(Role::from_key("body"), Role::Other);
    assert_eq!(Role::from_key(""), Role::Other);
}

#[test]
fn parse_span_reads_start_and_length() {
    assert_eq!(parse_span("12:5:0"), Some((12, 17)));
    assert_eq!(parse_span("0:0:0"), Some((0, 0)));
    assert_eq!(parse_span("7:3"), Some((7, 10)));
    assert_eq!(parse_span("007:03:x"), Some((7, 10)));
}

#[test]
fn parse_span_refuses_other_forms() {
    assert_eq!(parse_span(""), None);
    assert_eq!(parse_span("12"), None);
    assert_eq!(parse_span(":5:0"), None);
    assert_eq!(parse_span("12::0"), None);
    assert_eq!(parse_span("a:5:0"), None);
    assert_eq!(parse_span("12:5x:0"), None);
    assert_eq!(parse_span("-1:5:0"), None);
    assert_eq!(parse_span("1 :5:0"), None);
}

#[test]
fn parse_span_refuses_numbers_that_are_too_large() {
    let max = usize::MAX.to_string();
    assert_eq!(parse_span(&format!("{}:0:0", max)), Some((usize::MAX, usize::MAX)));
    assert_eq!(parse_span(&format!("0:{}:0", max)), Some((0, usize::MAX)));
    assert_eq!(parse_span(&format!("{}:1:0", max)), None);
    assert_eq!(parse_span(&format!("{}0:1:0", max)), None);
    assert_eq!(parse_span("99999999999999999999999999999999999999999:1:0"), None);
}

#[test]
fn a_tree_with_nested_spans_is_well_formed() {
    let call = nested_call();
    assert!(call.is_well_formed(10));
    assert!(call.is_well_formed(100));
    assert!(!call.is_well_formed(9));
    assert!(SolAST::unknown().is_well_formed(0));
    assert!(SolAST::new("X", 0, 0).is_well_formed(0));
    assert!(!SolAST::new("X", 0, 1).is_well_formed(0));
    assert!(!SolAST::new("X", 2, 1).is_well_formed(5));
}

#[test]
fn a_part_outside_its_node_is_not_well_formed() {
    let node = SolAST::new("Block", 2, 6).with_part(Role::Statement, SolAST::new("S", 1, 4));
    assert!(!node.is_well_formed(10));
    let node = SolAST::new("Block", 2, 6).with_part(Role::Statement, SolAST::new("S", 4, 7));
    assert!(!node.is_well_formed(10));
    let node = SolAST::new("Block", 2, 6).with_part(Role::Statement, SolAST::new("S", 2, 6));
    assert!(node.is_well_formed(10));
    let deep = SolAST::new("Block", 0, 9).with_part(
        Role::Statement,
        SolAST::new("S", 2, 6).with_part(Role::Expression, SolAST::new("E", 5, 7)),
    );
    assert!(!deep.is_well_formed(10));
}

#[test]
fn parts_that_overlap_are_not_well_formed() {
    let node = SolAST::new("Block", 0, 9)
        .with_part(Role::Statement, SolAST::new("S", 0, 4))
        .with_part(Role::Statement, SolAST::new("S", 6, 9))
        .with_part(Role::Statement, SolAST::new("S", 3, 6));
    assert!(!node.is_well_formed(9));
    let node = SolAST::new("Block", 0, 9)
        .with_part(Role::Statement, SolAST::new("S", 0, 4))
        .with_part(Role::Statement, SolAST::new("S", 6, 9))
        .with_part(Role::Statement, SolAST::new("S", 4, 6));
    assert!(node.is_well_formed(9));
}

#[test]
fn a_span_that_is_not_known_is_not_held_against_the_tree() {
    let mut inner = SolAST::new("S", 0, 0).with_part(Role::Expression, SolAST::new("E", 50, 60));
    inner.bounds = None;
    let node = SolAST::new("Block", 0, 9).with_part(Role::Statement, inner);
    assert!(node.is_well_formed(60));
    assert!(!node.is_well_formed(59));
}
