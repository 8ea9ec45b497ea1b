use gambit::run::mutant_name;
use gambit::{
    collect_points, current_mid, keep_new, next_mid, sample_mutants, Candidate, Mutant,
    MutantCounter, MutantGenerator, MutateParams, MutationError, MutationParams, MutationType,
    Role, RunMutations, Sampling, SolAST, ATTEMPTS,
};
use std::collections::VecDeque;
use rand::seq::SliceRandom;
use rand::{RngCore, SeedableRng};
use rand_pcg::Pcg64;

const SOURCE: &str = "contract C {\n  uint z = p + q;\n  function f(uint x) public {\n    require(x > 0);\n    uint y = a - b;\n    if (x > 1) { g(x, y); }\n    ++x;\n    assert(h(x - 1));\n  }\n}\n";

const EVERY: [MutationType; 10] = [
    MutationType::BinaryOpMutation,
    MutationType::RequireMutation,
    MutationType::AssignmentMutation,
    MutationType::DeleteExpressionMutation,
    MutationType::FunctionCallMutation,
    MutationType::IfStatementMutation,
    MutationType::SwapArgumentsFunctionMutation,
    MutationType::SwapArgumentsOperatorMutation,
    MutationType::SwapLinesMutation,
    MutationType::UnaryOperatorMutation,
];

fn supported() -> Vec<MutationType> {
    EVERY.iter().copied().filter(|m| *m != MutationType::AssignmentMutation).collect()
}

fn at(kind: &str, needle: &str) -> SolAST {
    let start = SOURCE.find(needle).unwrap();
    SolAST::new(kind, start, start + needle.len())
}

fn inside(kind: &str, outer: &str, needle: &str, last: bool) -> SolAST {
    let base = SOURCE.find(outer).unwrap();
    let offset = if last { outer.rfind(needle).unwrap() } else { outer.find(needle).unwrap() };
    SolAST::new(kind, base + offset, base + offset + needle.len())
}

fn binary(text: &str, op: &str, left: &str, right: &str) -> SolAST {
    at("BinaryOperation", text)
        .with_operator(op)
        .with_part(Role::LeftExpression, inside("Identifier", text, left, false).with_name(left))
        .with_part(Role::RightExpression, inside("Identifier", text, right, true).with_name(right))
}

fn call(text: &str, name: &str, arguments: Vec<SolAST>) -> SolAST {
    let mut node = at("FunctionCall", text)
        .with_part(Role::Expression, inside("Identifier", text, name, false).with_name(name));
    for argument in arguments {
        node = node.with_part(Role::Argument, argument);
    }
    node
}

fn statement(text: &str, expression: SolAST) -> SolAST {
    at("ExpressionStatement", text).with_part(Role::Expression, expression)
}

fn function_body() -> SolAST {
    let body = &SOURCE[SOURCE.find("{\n    require").unwrap()..SOURCE.find("  }\n}").unwrap() + 3];
    let require = statement("require(x > 0);", call("require(x > 0)", "require", vec![binary("x > 0", ">", "x", "0")]));
    let declaration = at("VariableDeclarationStatement", "uint y = a - b;")
        .with_part(Role::Other, binary("a - b", "-", "a", "b"));
    let inner = at("Block", "{ g(x, y); }").with_part(
        Role::Statement,
        statement(
            "g(x, y);",
            call(
                "g(x, y)",
                "g",
                vec![
                    inside("Identifier", "g(x, y)", "x", false).with_name("x"),
                    inside("Identifier", "g(x, y)", "y", false).with_name("y"),
                ],
            ),
        ),
    );
    let branch = at("IfStatement", "if (x > 1) { g(x, y); }")
        .with_part(Role::Condition, binary("x > 1", ">", "x", "1"))
        .with_part(Role::Other, inner);
    let increment = statement("++x;", at("UnaryOperation", "++x").with_operator("++"));
    let assertion = statement(
        "assert(h(x - 1));",
        call("assert(h(x - 1))", "assert", vec![call("h(x - 1)", "h", vec![binary("x - 1", "-", "x", "1")])]),
    );
    at("Block", body)
        .with_part(Role::Statement, require)
        .with_part(Role::Statement, declaration)
        .with_part(Role::Statement, branch)
        .with_part(Role::Statement, increment)
        .with_part(Role::Statement, assertion)
}

fn tree() -> SolAST {
    let function = at("FunctionDefinition", &SOURCE[SOURCE.find("function").unwrap()..SOURCE.find("  }\n}").unwrap() + 3])
        .with_name("f")
        .with_part(Role::Other, function_body());
    let variable = at("VariableDeclaration", "uint z = p + q").with_name("z").with_part(Role::Other, binary("p + q", "+", "p", "q"));
    let contract = at("ContractDefinition", &SOURCE[..SOURCE.len() - 1])
        .with_name("C")
        .with_part(Role::Other, variable)
        .with_part(Role::Other, function);
    SolAST::new("SourceUnit", 0, SOURCE.len()).with_part(Role::Other, contract)
}

/// A function whose body is the statements `a;`, `b;` and `-c;`.
fn small() -> (String, SolAST) {
    let source = "function f() { a; b; -c; }".to_string();
    let place = |needle: &str| source.find(needle).unwrap();
    let negation = SolAST::new("UnaryOperation", place("-c"), place("-c") + 2).with_operator("-");
    let block = SolAST::new("Block", place("{"), source.len())
        .with_part(Role::Statement, SolAST::new("ExpressionStatement", place("a;"), place("a;") + 2))
        .with_part(Role::Statement, SolAST::new("ExpressionStatement", place("b;"), place("b;") + 2))
        .with_part(Role::Statement, SolAST::new("ExpressionStatement", place("-c;"), place("-c;") + 3).with_part(Role::Expression, negation));
    let function = SolAST::new("FunctionDefinition", 0, source.len()).with_part(Role::Other, block);
    (source, function)
}

fn candidate(operator: MutationType, text: &str) -> Candidate {
    Candidate { operator, text: text.as_bytes().to_vec() }
}

fn texts(mutants: &[Mutant]) -> Vec<String> {
    mutants.iter().map(|m| String::from_utf8(m.text.clone()).unwrap()).collect()
}

fn sample(operators: &[MutationType], n: usize, seed: u64) -> Result<Sampling, MutationError> {
    let mut rng = Pcg64::seed_from_u64(seed);
    sample_mutants(&tree(), &operators.to_vec(), n, &mut rng, "C.sol", SOURCE.as_bytes())
}

fn run(operators: &[MutationType], n: usize, seed: u64) -> Result<Vec<Mutant>, MutationError> {
    sample(operators, n, seed).map(|s| s.mutants)
}

#[test]
fn attempts_per_mutant_is_fifty() {
    assert_eq!(ATTEMPTS, 50);
}

#[test]
fn mutant_name_is_file_name_attempt_and_extension() {
    assert_eq!(mutant_name("C.sol", 0), "C.sol0.sol");
    assert_eq!(mutant_name("C.sol", 7), "C.sol7.sol");
    assert_eq!(mutant_name("dir/Token.sol", 1234567890), "dir/Token.sol1234567890.sol");
    assert_eq!(mutant_name("", 10), "10.sol");
    assert_eq!(mutant_name("x", usize::MAX), format!("x{}.sol", usize::MAX));
}

#[test]
fn keep_new_keeps_the_first_of_each_text() {
    let op = MutationType::BinaryOpMutation;
    let other = MutationType::DeleteExpressionMutation;
    let candidates = vec![
        candidate(op, "one"),
        candidate(other, "source"),
        candidate(other, "one"),
        candidate(other, "two"),
        candidate(op, "two"),
        candidate(op, "three"),
    ];
    let kept = keep_new(b"source", "F.sol", &candidates);
    assert_eq!(texts(&kept), vec!["one", "two", "three"]);
    assert_eq!(kept.iter().map(|m| m.attempt).collect::<Vec<_>>(), vec![0, 3, 5]);
    assert_eq!(kept.iter().map(|m| m.name.as_str()).collect::<Vec<_>>(), vec!["F.sol0.sol", "F.sol3.sol", "F.sol5.sol"]);
    assert_eq!(kept.iter().map(|m| m.operator).collect::<Vec<_>>(), vec![op, other, op]);
}

#[test]
fn keep_new_of_nothing_is_nothing() {
    assert!(keep_new(b"source", "F.sol", &Vec::new()).is_empty());
}

#[test]
fn keep_new_drops_a_text_that_was_refused_before() {
    let op = MutationType::RequireMutation;
    let candidates = vec![candidate(op, "s"), candidate(op, "s"), candidate(op, "t"), candidate(op, "s")];
    let kept = keep_new(b"s", "F", &candidates);
    assert_eq!(texts(&kept), vec!["t"]);
    assert_eq!(kept[0].attempt, 2);
    assert_eq!(kept[0].name, "F2.sol");
}

#[test]
fn keep_new_with_one_text_keeps_one_mutant() {
    let op = MutationType::RequireMutation;
    for count in 1..20 {
        let candidates: Vec<Candidate> = (0..count).map(|_| candidate(op, "same")).collect();
        let kept = keep_new(b"source", "F", &candidates);
        assert_eq!(kept.len(), 1);
        assert_eq!(kept[0].attempt, 0);
    }
}

#[test]
fn collect_points_walks_the_function_in_pre_order() {
    let root = tree();
    let points = collect_points(&root, &EVERY.to_vec());
    let found: Vec<(MutationType, String)> = points
        .iter()
        .map(|(op, node)| (*op, String::from_utf8(node.get_text(SOURCE.as_bytes())).unwrap()))
        .collect();
    let body = String::from_utf8(function_body().get_text(SOURCE.as_bytes())).unwrap();
    let expected = vec![
        (MutationType::SwapLinesMutation, body),
        (MutationType::DeleteExpressionMutation, "require(x > 0);".to_string()),
        (MutationType::RequireMutation, "require(x > 0)".to_string()),
        (MutationType::FunctionCallMutation, "require(x > 0)".to_string()),
        (MutationType::BinaryOpMutation, "x > 0".to_string()),
        (MutationType::SwapArgumentsOperatorMutation, "x > 0".to_string()),
        (MutationType::BinaryOpMutation, "a - b".to_string()),
        (MutationType::SwapArgumentsOperatorMutation, "a - b".to_string()),
        (MutationType::IfStatementMutation, "if (x > 1) { g(x, y); }".to_string()),
        (MutationType::BinaryOpMutation, "x > 1".to_string()),
        (MutationType::SwapArgumentsOperatorMutation, "x > 1".to_string()),
        (MutationType::DeleteExpressionMutation, "g(x, y);".to_string()),
        (MutationType::FunctionCallMutation, "g(x, y)".to_string()),
        (MutationType::SwapArgumentsFunctionMutation, "g(x, y)".to_string()),
        (MutationType::DeleteExpressionMutation, "++x;".to_string()),
        (MutationType::UnaryOperatorMutation, "++x".to_string()),
        (MutationType::DeleteExpressionMutation, "assert(h(x - 1));".to_string()),
    ];
    assert_eq!(found, expected);
}

#[test]
fn collect_points_follows_the_order_of_the_operators_at_a_node() {
    let root = tree();
    let operators = vec![MutationType::FunctionCallMutation, MutationType::RequireMutation];
    let points = collect_points(&root, &operators);
    let kinds: Vec<MutationType> = points.iter().map(|p| p.0).collect();
    assert_eq!(
        kinds,
        vec![MutationType::FunctionCallMutation, MutationType::RequireMutation, MutationType::FunctionCallMutation]
    );
}

#[test]
fn nodes_outside_a_function_are_no_mutation_points() {
    let root = tree();
    let points = collect_points(&root, &vec![MutationType::BinaryOpMutation]);
    for (_, node) in &points {
        assert_ne!(node.get_text(SOURCE.as_bytes()), b"p + q".to_vec());
    }
    assert_eq!(points.len(), 3);
    let outside = SolAST::new("SourceUnit", 0, SOURCE.len()).with_part(Role::Other, binary("p + q", "+", "p", "q"));
    assert!(collect_points(&outside, &EVERY.to_vec()).is_empty());
    assert!(collect_points(&function_body(), &EVERY.to_vec()).is_empty());
}

#[test]
fn nodes_below_an_assert_call_are_no_mutation_points() {
    let root = tree();
    let points = collect_points(&root, &EVERY.to_vec());
    for (_, node) in &points {
        let text = node.get_text(SOURCE.as_bytes());
        assert_ne!(text, b"assert(h(x - 1))".to_vec());
        assert_ne!(text, b"h(x - 1)".to_vec());
        assert_ne!(text, b"x - 1".to_vec());
    }
}

#[test]
fn is_assert_call_tells_calls_of_assert() {
    assert!(RunMutations::is_assert_call(&call("assert(h(x - 1))", "assert", vec![])));
    assert!(!RunMutations::is_assert_call(&call("h(x - 1)", "h", vec![])));
    assert!(!RunMutations::is_assert_call(&call("require(x > 0)", "require", vec![])));
    assert!(!RunMutations::is_assert_call(&SolAST::new("Identifier", 0, 6).with_name("assert")));
    assert!(!RunMutations::is_assert_call(&SolAST::unknown()));
}

#[test]
fn two_runs_with_one_seed_give_the_same_mutants() {
    for seed in [0u64, 1, 42, 1 << 40] {
        let first = run(&supported(), 30, seed).unwrap();
        let second = run(&supported(), 30, seed).unwrap();
        assert!(!first.is_empty());
        assert_eq!(texts(&first), texts(&second));
        assert_eq!(
            first.iter().map(|m| (m.name.clone(), m.attempt, m.operator)).collect::<Vec<_>>(),
            second.iter().map(|m| (m.name.clone(), m.attempt, m.operator)).collect::<Vec<_>>()
        );
    }
}

#[test]
fn runs_with_different_seeds_differ() {
    let runs: Vec<Vec<String>> = (0..8).map(|seed| texts(&run(&supported(), 30, seed).unwrap())).collect();
    assert!(runs.iter().any(|r| *r != runs[0]));
}

#[test]
fn no_mutant_is_the_source_or_another_mutant() {
    for seed in 0..10 {
        let mutants = run(&supported(), 60, seed).unwrap();
        assert!(mutants.len() <= 60);
        let all = texts(&mutants);
        for (i, text) in all.iter().enumerate() {
            assert_ne!(text, SOURCE);
            for other in &all[i + 1..] {
                assert_ne!(text, other);
            }
        }
    }
}

#[test]
fn every_mutant_is_named_after_its_attempt_and_made_by_the_operator_of_that_turn() {
    let order = [
        MutationType::SwapLinesMutation,
        MutationType::DeleteExpressionMutation,
        MutationType::RequireMutation,
        MutationType::FunctionCallMutation,
        MutationType::BinaryOpMutation,
        MutationType::SwapArgumentsOperatorMutation,
        MutationType::IfStatementMutation,
        MutationType::SwapArgumentsFunctionMutation,
        MutationType::UnaryOperatorMutation,
    ];
    for seed in 0..5 {
        let n = 20;
        let sampling = sample(&supported(), n, seed).unwrap();
        let mut queue: VecDeque<MutationType> = (0..n).map(|k| order[k % order.len()]).collect();
        let mut next = sampling.mutants.iter().peekable();
        for attempt in 0..sampling.attempts {
            let operator = queue.pop_front().unwrap();
            match next.peek() {
                Some(m) if m.attempt == attempt => {
                    assert_eq!(m.operator, operator);
                    assert_eq!(m.name, format!("C.sol{}.sol", attempt));
                    next.next();
                }
                _ => queue.push_back(operator),
            }
        }
        assert!(next.next().is_none());
        assert!(queue.is_empty() || sampling.attempts == n * ATTEMPTS);
        assert_eq!(queue.len() + sampling.mutants.len(), n);
    }
}

#[test]
fn the_first_turns_go_to_the_operators_in_first_seen_order() {
    let sampling = sample(&supported(), 9, 2).unwrap();
    let first: Vec<&Mutant> = sampling.mutants.iter().filter(|m| m.attempt < 9).collect();
    let order = [
        MutationType::SwapLinesMutation,
        MutationType::DeleteExpressionMutation,
        MutationType::RequireMutation,
        MutationType::FunctionCallMutation,
        MutationType::BinaryOpMutation,
        MutationType::SwapArgumentsOperatorMutation,
        MutationType::IfStatementMutation,
        MutationType::SwapArgumentsFunctionMutation,
        MutationType::UnaryOperatorMutation,
    ];
    assert!(first.len() >= 5);
    for m in first {
        assert_eq!(m.operator, order[m.attempt]);
    }
}

#[test]
fn a_run_that_fills_its_target_stops_when_the_queue_is_empty() {
    let operators = [MutationType::DeleteExpressionMutation, MutationType::IfStatementMutation];
    let sampling = sample(&operators, 2, 1).unwrap();
    assert_eq!(sampling.mutants.len(), 2);
    assert_eq!(sampling.attempts, 2);
    let sampling = sample(&[MutationType::RequireMutation], 1, 1).unwrap();
    assert_eq!(sampling.mutants.len(), 1);
    assert_eq!(sampling.attempts, 1);
}

#[test]
fn an_operator_whose_mutant_is_refused_has_its_turn_again() {
    let operators = [MutationType::DeleteExpressionMutation];
    for seed in 0..10 {
        let sampling = sample(&operators, 4, seed).unwrap();
        assert_eq!(sampling.mutants.len(), 4);
        assert!(sampling.attempts >= 4);
        assert!(sampling.attempts < 4 * ATTEMPTS);
        assert_eq!(sampling.mutants.last().unwrap().attempt, sampling.attempts - 1);
    }
    assert!((0..10).any(|seed| sample(&operators, 4, seed).unwrap().attempts > 4));
}

#[test]
fn one_point_with_one_outcome_uses_up_the_budget() {
    for n in [2usize, 3, 5, 20] {
        let sampling = sample(&[MutationType::RequireMutation], n, 17).unwrap();
        assert_eq!(sampling.attempts, n * 50);
        assert_eq!(sampling.mutants.len(), 1);
        assert_eq!(sampling.mutants[0].attempt, 0);
    }
}

#[test]
fn a_run_without_a_new_text_uses_up_the_budget_and_leaves_nothing() {
    let sampling = sample(&[MutationType::SwapLinesMutation], 3, 4).unwrap();
    assert!(sampling.mutants.is_empty());
    assert_eq!(sampling.attempts, 150);
}

#[test]
fn a_run_without_turns_makes_no_attempt() {
    assert_eq!(sample(&supported(), 0, 1).unwrap().attempts, 0);
    assert_eq!(sample(&[], 10, 1).unwrap().attempts, 0);
}

#[test]
fn one_point_with_one_outcome_gives_one_mutant() {
    for n in [1usize, 2, 5, 20] {
        let mutants = run(&[MutationType::RequireMutation], n, 17).unwrap();
        assert_eq!(mutants.len(), 1);
        assert_eq!(mutants[0].attempt, 0);
        assert_eq!(mutants[0].name, "C.sol0.sol");
        assert_eq!(texts(&mutants)[0], SOURCE.replace("require(x > 0)", "require(!(x > 0))"));
    }
}

#[test]
fn two_operators_each_get_a_mutant() {
    let operators = [MutationType::DeleteExpressionMutation, MutationType::IfStatementMutation];
    for seed in 0..20 {
        for n in 2..6 {
            let mutants = run(&operators, n, seed).unwrap();
            for op in operators {
                assert!(mutants.iter().any(|m| m.operator == op));
            }
        }
    }
}

#[test]
fn the_turns_go_round_the_distinct_operators_in_first_seen_order() {
    let (source, function) = small();
    let operators = vec![MutationType::UnaryOperatorMutation, MutationType::DeleteExpressionMutation];
    for seed in 0..20 {
        let mut rng = Pcg64::seed_from_u64(seed);
        let mutants = sample_mutants(&function, &operators, 2, &mut rng, "s", source.as_bytes()).unwrap().mutants;
        let kinds: Vec<MutationType> = mutants.iter().map(|m| m.operator).collect();
        assert_eq!(kinds, vec![MutationType::DeleteExpressionMutation, MutationType::UnaryOperatorMutation]);
        assert_eq!(mutants[1].attempt, 1);
    }
}

#[test]
fn asking_for_no_mutant_gives_none() {
    assert!(run(&supported(), 0, 1).unwrap().is_empty());
    assert!(run(&EVERY, 0, 1).unwrap().is_empty());
}

#[test]
fn without_mutation_points_there_is_no_mutant() {
    assert!(run(&[], 10, 1).unwrap().is_empty());
    assert!(run(&[MutationType::AssignmentMutation], 10, 1).unwrap().is_empty());
    let mut rng = Pcg64::seed_from_u64(1);
    let empty = SolAST::unknown();
    assert!(sample_mutants(&empty, &EVERY.to_vec(), 10, &mut rng, "e", b"").unwrap().mutants.is_empty());
}

#[test]
fn fewer_mutants_than_asked_for_is_no_error() {
    let mutants = run(&[MutationType::SwapArgumentsOperatorMutation], 100, 4).unwrap();
    assert_eq!(mutants.len(), 3);
    let mutants = run(&[MutationType::SwapLinesMutation], 100, 4).unwrap();
    assert!(mutants.is_empty());
}

#[test]
fn the_unsupported_operator_is_reported_when_its_turn_comes() {
    let root = SolAST::new("FunctionDefinition", 0, 12).with_part(
        Role::Other,
        SolAST::new("Block", 0, 12)
            .with_part(Role::Statement, SolAST::new("ExpressionStatement", 2, 4))
            .with_part(Role::Statement, SolAST::new("Assignment", 5, 10)),
    );
    let operators = vec![MutationType::AssignmentMutation, MutationType::DeleteExpressionMutation];
    let source = b"{ a; x = 1 }";
    let mut rng = Pcg64::seed_from_u64(1);
    let one = sample_mutants(&root, &operators, 1, &mut rng, "f", source).unwrap().mutants;
    assert_eq!(one.len(), 1);
    assert_eq!(one[0].operator, MutationType::DeleteExpressionMutation);
    let two = sample_mutants(&root, &operators, 2, &mut rng, "f", source);
    assert_eq!(two.err(), Some(MutationError::UnsupportedOperator));
    let many = sample_mutants(&root, &operators, 20, &mut rng, "f", source);
    assert_eq!(many.err(), Some(MutationError::UnsupportedOperator));
    let mut used = Pcg64::seed_from_u64(3);
    let mut fresh = Pcg64::seed_from_u64(3);
    assert!(sample_mutants(&root, &operators, 2, &mut used, "f", source).is_err());
    assert_eq!(used.next_u64(), fresh.next_u64());
}

#[test]
fn a_malformed_mutation_point_is_reported() {
    let root = SolAST::new("FunctionDefinition", 0, 9).with_part(Role::Other, SolAST::new("BinaryOperation", 0, 5).with_operator("-"));
    let mut rng = Pcg64::seed_from_u64(1);
    let result = sample_mutants(&root, &vec![MutationType::BinaryOpMutation], 3, &mut rng, "f", b"a - b    ");
    assert_eq!(result.err(), Some(MutationError::MalformedNode));
    let result = sample_mutants(&root, &vec![MutationType::BinaryOpMutation], 0, &mut rng, "f", b"a - b    ");
    assert_eq!(result.err(), Some(MutationError::MalformedNode));
    let result = sample_mutants(&tree(), &supported(), 3, &mut rng, "f", &SOURCE.as_bytes()[..40]);
    assert_eq!(result.err(), Some(MutationError::MalformedNode));
    let result = sample_mutants(&root, &vec![MutationType::DeleteExpressionMutation], 3, &mut rng, "f", b"a - b    ");
    assert_eq!(result.map(|s| s.mutants.len()).ok(), Some(0));
}

#[test]
fn run_mutations_holds_what_it_is_given() {
    let run = RunMutations::new("C.sol".to_string(), tree(), 4, Pcg64::seed_from_u64(9), "out".to_string(), supported());
    assert_eq!(run.fnm, "C.sol");
    assert_eq!(run.num_mutants, 4);
    assert_eq!(run.out, "out");
    assert_eq!(run.mutations, supported());
    assert_eq!(run.node.node_type.as_deref(), Some("SourceUnit"));
    assert_eq!(run.count_points(), 17);
}

#[test]
fn run_mutations_gives_the_mutants_of_the_driver() {
    let mut run = RunMutations::new("C.sol".to_string(), tree(), 25, Pcg64::seed_from_u64(9), "out".to_string(), supported());
    let mutants = run.get_mutations(SOURCE.as_bytes()).unwrap();
    let mut rng = Pcg64::seed_from_u64(9);
    let direct = sample_mutants(&tree(), &supported(), 25, &mut rng, "C.sol", SOURCE.as_bytes()).unwrap().mutants;
    assert_eq!(texts(&mutants), texts(&direct));
    assert_eq!(run.num_mutants, 25);
    assert_eq!(run.fnm, "C.sol");
    let again = run.get_mutations(SOURCE.as_bytes()).unwrap();
    let direct_again = sample_mutants(&tree(), &supported(), 25, &mut rng, "C.sol", SOURCE.as_bytes()).unwrap().mutants;
    assert_eq!(texts(&again), texts(&direct_again));
}

#[test]
fn the_generator_seeds_its_stream_from_the_parameters() {
    let params = |seed| MutationParams { outdir: "o".to_string(), filenames: vec!["a".to_string()], seed };
    let mut one = MutantGenerator::new(params(5));
    let mut two = MutantGenerator::new(params(5));
    let mut other = MutantGenerator::new(params(6));
    assert_eq!(one.params.seed, 5);
    assert_eq!(one.params.outdir, "o");
    assert_eq!(one.params.filenames, vec!["a".to_string()]);
    let a = one.rng.next_u64();
    assert_eq!(a, two.rng.next_u64());
    assert_ne!(a, other.rng.next_u64());
    assert_eq!(a, Pcg64::seed_from_u64(5).next_u64());
}

#[test]
fn default_parameters() {
    let params = MutationParams::default();
    assert_eq!(params.outdir, "out");
    assert!(params.filenames.is_empty());
    assert_eq!(params.seed, 0);
}

#[test]
fn target_is_the_number_asked_for_or_one_per_point() {
    let mut params = MutateParams {
        json: None,
        filename: None,
        num_mutants: None,
        seed: None,
        outdir: "out".to_string(),
        log_mutants: true,
        export_mutants: false,
        solc: "solc".to_string(),
        fns_to_mutate: None,
        contract_to_mutate: None,
        solc_basepath: None,
        solc_allowpaths: None,
        solc_remapping: None,
        validate: true,
    };
    assert_eq!(params.target(17), 17);
    assert_eq!(params.seed_or_default(), 0);
    params.num_mutants = Some(3);
    params.seed = Some(99);
    assert_eq!(params.target(17), 3);
    assert_eq!(params.target(0), 3);
    assert_eq!(params.seed_or_default(), 99);
}

#[test]
fn the_counter_numbers_from_one() {
    let mut counter = MutantCounter::new();
    assert_eq!(current_mid(&counter), 0);
    assert_eq!(next_mid(&mut counter), 1);
    assert_eq!(next_mid(&mut counter), 2);
    assert_eq!(current_mid(&counter), 2);
    assert_eq!(current_mid(&counter), 2);
    let mut late = MutantCounter { count: u64::MAX - 1 };
    assert_eq!(next_mid(&mut late), u64::MAX);
    assert_eq!(current_mid(&late), u64::MAX);
}

#[test]
fn the_driver_draws_the_point_and_then_the_outcome() {
    let points = [("x", ">", "0"), ("a", "-", "b"), ("x", ">", "1")];
    let tokens = ["+", "-", "*", "/", "%", "**"];
    for seed in 0..10u64 {
        let n = 6;
        let mut rng = Pcg64::seed_from_u64(seed);
        let mut expected: Vec<(usize, String)> = Vec::new();
        let mut seen = vec![SOURCE.to_string()];
        let mut turns = n;
        let mut attempts = 0;
        while turns > 0 && attempts < n * ATTEMPTS {
            turns -= 1;
            let (left, op, right) = *points.choose(&mut rng).unwrap();
            let token = *tokens.choose(&mut rng).unwrap();
            let before = format!("{} {} {}", left, op, right);
            let after = format!("{} {} {}", left, token, right);
            let text = SOURCE.replacen(&before, &after, 1);
            if seen.contains(&text) {
                turns += 1;
            } else {
                expected.push((attempts, text.clone()));
                seen.push(text);
            }
            attempts += 1;
        }
        let sampling = sample(&[MutationType::BinaryOpMutation], n, seed).unwrap();
        let found: Vec<(usize, String)> = sampling
            .mutants
            .iter()
            .map(|m| (m.attempt, String::from_utf8(m.text.clone()).unwrap()))
            .collect();
        assert_eq!(found, expected);
        assert_eq!(sampling.attempts, attempts);
    }
}

#[test]
fn the_driver_draws_the_two_flags_of_an_if_statement_in_turn() {
    for seed in 0..10u64 {
        let mut rng = Pcg64::seed_from_u64(seed);
        let flags = [true, false];
        let only = [0usize];
        only.choose(&mut rng).unwrap();
        let condition = if *flags.choose(&mut rng).unwrap() {
            flags.choose(&mut rng).unwrap().to_string()
        } else {
            "!(x > 1)".to_string()
        };
        let expected = SOURCE.replacen("if (x > 1)", &format!("if ({})", condition), 1);
        let mutants = run(&[MutationType::IfStatementMutation], 1, seed).unwrap();
        assert_eq!(texts(&mutants), vec![expected]);
    }
}

#[test]
fn two_runs_with_one_seed_leave_the_generator_in_one_state() {
    let params = |seed| MutationParams { outdir: "o".to_string(), filenames: Vec::new(), seed };
    let mut one = MutantGenerator::new(params(11));
    let mut two = MutantGenerator::new(params(11));
    let first = sample_mutants(&tree(), &supported(), 12, &mut one.rng, "C.sol", SOURCE.as_bytes()).unwrap();
    let second = sample_mutants(&tree(), &supported(), 12, &mut two.rng, "C.sol", SOURCE.as_bytes()).unwrap();
    assert_eq!(texts(&first.mutants), texts(&second.mutants));
    assert_eq!(first.attempts, second.attempts);
    assert_eq!(one.rng.next_u64(), two.rng.next_u64());
}

#[test]
fn a_run_that_ends_in_an_error_draws_nothing() {
    let root = SolAST::new("FunctionDefinition", 0, 9).with_part(Role::Other, SolAST::new("BinaryOperation", 0, 5).with_operator("-"));
    let mut used = Pcg64::seed_from_u64(5);
    let mut fresh = Pcg64::seed_from_u64(5);
    assert!(sample_mutants(&root, &vec![MutationType::BinaryOpMutation], 3, &mut used, "f", b"a - b    ").is_err());
    assert_eq!(used.next_u64(), fresh.next_u64());
}
