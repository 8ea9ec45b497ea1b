//! The sampling driver: it collects the mutation points of a tree, gives the
//! operators their turns, draws one mutant per turn, and keeps the mutants
//! whose text is new. An operator whose mutant is not new has its turn
//! again, until the budget of attempts is used up.

use crate::ast::{
    in_scope, lemma_selected_in_scope, lemma_selected_nodes, nodes_of, selected, subtree,
    Everywhere, NodeTest, SolAST,
};
use crate::mutation::{calls, has_kind, is_call_of, kind_is, Mutation, MutationError, MutationType};
use crate::random::{chosen, pick_index, seeded_stream};
use crate::text::{copy_span, same_bytes};
use itertools::Itertools;
use rand_pcg::Pcg64;
use std::collections::{HashMap, VecDeque};
use vstd::prelude::*;
use vstd::string::StringExecFns;

verus! {

/// How many attempts the driver makes at most for each mutant asked for.
pub const ATTEMPTS: usize = 50;

/// One attempt as a value: the operator that was applied and the text that
/// came out.
pub struct Attempt {
    /// The operator that was applied.
    pub operator: MutationType,
    /// The whole source text as the operator rewrote it.
    pub text: Seq<u8>,
}

/// The outcome of one attempt: the operator that was applied, and the whole
/// source text as it rewrote it.
#[derive(Debug)]
pub struct Candidate {
    /// The operator that was applied.
    pub operator: MutationType,
    /// The whole source text as the operator rewrote it.
    pub text: Vec<u8>,
}

impl View for Candidate {
    type V = Attempt;

    open spec fn view(&self) -> Attempt {
        Attempt { operator: self.operator, text: self.text@ }
    }
}

/// An accepted mutant as a value.
pub struct MutantView {
    pub name: Seq<char>,
    pub attempt: nat,
    pub operator: MutationType,
    pub text: Seq<u8>,
}

/// An accepted mutant: the file name it is to be stored under, the index of
/// the attempt that made it, the operator that made it, and its text.
#[derive(Debug)]
pub struct Mutant {
    /// The file name to store the mutant under.
    pub name: String,
    /// The index of the attempt that made the mutant.
    pub attempt: usize,
    /// The operator that made the mutant.
    pub operator: MutationType,
    /// The whole text of the mutant.
    pub text: Vec<u8>,
}

impl View for Mutant {
    type V = MutantView;

    open spec fn view(&self) -> MutantView {
        MutantView {
            name: self.name@,
            attempt: self.attempt as nat,
            operator: self.operator,
            text: self.text@,
        }
    }
}

/// The attempts that a list of candidates stands for.
pub open spec fn attempts_of(candidates: Seq<Candidate>) -> Seq<Attempt> {
    Seq::new(candidates.len(), |i: int| candidates[i]@)
}

/// The mutants of a list as values.
pub open spec fn mutants_of(mutants: Seq<Mutant>) -> Seq<MutantView> {
    Seq::new(mutants.len(), |i: int| mutants[i]@)
}

/// The character for a digit below ten.
pub open spec fn digit(d: nat) -> char {
    if d == 0 {
        '0'
    } else if d == 1 {
        '1'
    } else if d == 2 {
        '2'
    } else if d == 3 {
        '3'
    } else if d == 4 {
        '4'
    } else if d == 5 {
        '5'
    } else if d == 6 {
        '6'
    } else if d == 7 {
        '7'
    } else if d == 8 {
        '8'
    } else {
        '9'
    }
}

/// The decimal digits of `n`, without leading zeros.
pub open spec fn decimal(n: nat) -> Seq<char>
    decreases n,
{
    if n < 10 {
        seq![digit(n)]
    } else {
        decimal(n / 10).push(digit(n % 10))
    }
}

/// The file name of the mutant that attempt `attempt` made of the file
/// `fnm`.
pub open spec fn file_name(fnm: Seq<char>, attempt: nat) -> Seq<char> {
    fnm + decimal(attempt) + ".sol"@
}

/// The text of attempt `k` differs from the source and from the text of
/// every earlier attempt.
pub open spec fn is_new(source: Seq<u8>, attempts: Seq<Attempt>, k: int) -> bool {
    &&& attempts[k].text != source
    &&& forall|j: int| 0 <= j < k ==> (#[trigger] attempts[j]).text != attempts[k].text
}

/// One of the mutants has the text `text`.
pub open spec fn holds_text(mutants: Seq<MutantView>, text: Seq<u8>) -> bool {
    exists|i: int| 0 <= i < mutants.len() && (#[trigger] mutants[i]).text == text
}

/// The mutants that a run of attempts leaves: one for each attempt whose
/// text is new, in the order of the attempts.
pub open spec fn accepted(source: Seq<u8>, fnm: Seq<char>, attempts: Seq<Attempt>) -> Seq<
    MutantView,
>
    decreases attempts.len(),
{
    if attempts.len() == 0 {
        Seq::empty()
    } else {
        let k = attempts.len() - 1;
        let earlier = accepted(source, fnm, attempts.drop_last());
        if is_new(source, attempts, k) {
            earlier.push(
                MutantView {
                    name: file_name(fnm, k as nat),
                    attempt: k as nat,
                    operator: attempts[k].operator,
                    text: attempts[k].text,
                },
            )
        } else {
            earlier
        }
    }
}

/// `usize::to_string` of std: the number in decimal digits, with no sign
/// and no leading zero.
#[verifier::external_body]
fn decimal_text(n: usize) -> (text: String)
    ensures
        text@ == decimal(n as nat),
{
    n.to_string()
}

/// The file name of the mutant that attempt `attempt` made of the file
/// `fnm`.
pub fn mutant_name(fnm: &str, attempt: usize) -> (name: String)
    ensures
        name@ == file_name(fnm@, attempt as nat),
{
    let mut name = String::from_str(fnm);
    let digits = decimal_text(attempt);
    name.append(digits.as_str());
    name.append(".sol");
    name
}

/// Whether one of the mutants has the text `text`.
fn is_kept(kept: &Vec<Mutant>, text: &[u8]) -> (found: bool)
    ensures
        found == holds_text(mutants_of(kept@), text@),
{
    let mut i: usize = 0;
    while i < kept.len()
        invariant
            i <= kept.len(),
            forall|j: int| 0 <= j < i ==> (#[trigger] mutants_of(kept@)[j]).text != text@,
        decreases kept.len() - i,
    {
        if same_bytes(kept[i].text.as_slice(), text) {
            assert(mutants_of(kept@)[i as int].text == text@);
            return true;
        }
        i += 1;
    }
    false
}

/// Takes the text of one attempt into the mutants where it differs from
/// the source and from every mutant's text, and says whether it did.
fn consider(
    kept: &mut Vec<Mutant>,
    source: &[u8],
    fnm: &str,
    attempt: usize,
    operator: MutationType,
    text: Vec<u8>,
) -> (fresh: bool)
    ensures
        fresh == (text@ != source@ && !holds_text(mutants_of(old(kept)@), text@)),
        fresh ==> mutants_of(final(kept)@) == mutants_of(old(kept)@).push(
            MutantView {
                name: file_name(fnm@, attempt as nat),
                attempt: attempt as nat,
                operator: operator,
                text: text@,
            },
        ),
        !fresh ==> mutants_of(final(kept)@) == mutants_of(old(kept)@),
{
    if same_bytes(text.as_slice(), source) || is_kept(kept, text.as_slice()) {
        return false;
    }
    kept.push(Mutant { name: mutant_name(fnm, attempt), attempt: attempt, operator: operator, text: text });
    assert(mutants_of(kept@) =~= mutants_of(old(kept)@).push(kept@.last()@));
    true
}

/// The mutants that the candidates leave: one for each candidate whose text
/// differs from the source and from the text of every candidate before it,
/// named after the file and the candidate's index.
pub fn keep_new(source: &[u8], fnm: &str, candidates: &Vec<Candidate>) -> (kept: Vec<Mutant>)
    ensures
        mutants_of(kept@) == accepted(source@, fnm@, attempts_of(candidates@)),
{
    let ghost all = attempts_of(candidates@);
    let mut kept: Vec<Mutant> = Vec::new();
    let mut k: usize = 0;
    assert(mutants_of(kept@) =~= accepted(source@, fnm@, all.take(0)));
    while k < candidates.len()
        invariant
            k <= candidates@.len(),
            all == attempts_of(candidates@),
            mutants_of(kept@) == accepted(source@, fnm@, all.take(k as int)),
        decreases candidates.len() - k,
    {
        proof {
            assert(all.take(k + 1).drop_last() =~= all.take(k as int));
            lemma_new_iff_not_kept(source@, fnm@, all.take(k + 1));
        }
        let text = copy_span(candidates[k].text.as_slice(), 0, candidates[k].text.len());
        assert(text@ =~= all[k as int].text);
        consider(&mut kept, source, fnm, k, candidates[k].operator, text);
        k += 1;
    }
    assert(all.take(all.len() as int) =~= all);
    kept
}

/// The question whether a node is a call of `assert`. The driver leaves
/// such calls out, with everything below them.
pub struct AssertCall;

/// The question whether a node is the definition of a function. The driver
/// collects mutation points inside such definitions only.
pub struct FunctionBoundary;

impl NodeTest for AssertCall {
    open spec fn holds(&self, node: &SolAST) -> bool {
        calls(node, "assert"@)
    }

    fn test(&self, node: &SolAST) -> (answer: bool) {
        is_call_of(node, "assert")
    }
}

impl NodeTest for FunctionBoundary {
    open spec fn holds(&self, node: &SolAST) -> bool {
        kind_is(node, "FunctionDefinition"@)
    }

    fn test(&self, node: &SolAST) -> (answer: bool) {
        has_kind(node, "FunctionDefinition")
    }
}

/// A mutation point as a value: an operator and a node at which it applies.
pub type Point = (MutationType, SolAST);

/// The mutation points that a list of operators and references stands for.
pub open spec fn point_values(points: Seq<(MutationType, &SolAST)>) -> Seq<Point> {
    Seq::new(points.len(), |i: int| (points[i].0, *points[i].1))
}

/// The mutation points at one node: one for each of the operators that
/// applies there, in the order of the operators.
pub open spec fn points_at(operators: Seq<MutationType>, node: &SolAST) -> Seq<Point>
    decreases operators.len(),
{
    if operators.len() == 0 {
        Seq::empty()
    } else {
        let earlier = points_at(operators.drop_last(), node);
        if operators.last().qualifies(node) {
            earlier.push((operators.last(), *node))
        } else {
            earlier
        }
    }
}

/// The mutation points at the nodes of a list, node after node.
pub open spec fn points_in(operators: Seq<MutationType>, nodes: Seq<SolAST>) -> Seq<Point>
    decreases nodes.len(),
{
    if nodes.len() == 0 {
        Seq::empty()
    } else {
        points_in(operators, nodes.drop_last()) + points_at(operators, &nodes.last())
    }
}

/// The nodes of a tree at which the driver looks for mutation points, in
/// pre-order: those inside the definition of a function, without the calls
/// of `assert` and everything below them.
pub open spec fn mutable_nodes(root: &SolAST) -> Seq<SolAST> {
    selected(root, &Everywhere, &AssertCall, &FunctionBoundary, false)
}

/// The mutation points of a tree for a list of operators.
pub open spec fn mutation_points(root: &SolAST, operators: Seq<MutationType>) -> Seq<Point> {
    points_in(operators, mutable_nodes(root))
}

/// The operators of a list of mutation points, point by point.
pub open spec fn kinds_of(points: Seq<Point>) -> Seq<MutationType> {
    Seq::new(points.len(), |i: int| points[i].0)
}

/// The nodes of the mutation points that belong to `operator`, in the order
/// of the points.
pub open spec fn nodes_for(points: Seq<Point>, operator: MutationType) -> Seq<SolAST>
    decreases points.len(),
{
    if points.len() == 0 {
        Seq::empty()
    } else {
        let earlier = nodes_for(points.drop_last(), operator);
        if points.last().0 == operator {
            earlier.push(points.last().1)
        } else {
            earlier
        }
    }
}

/// The distinct items of a list, each at the place of its first occurrence.
pub open spec fn first_seen<T>(items: Seq<T>) -> Seq<T>
    decreases items.len(),
{
    if items.len() == 0 {
        Seq::empty()
    } else {
        let earlier = first_seen(items.drop_last());
        if earlier.contains(items.last()) {
            earlier
        } else {
            earlier.push(items.last())
        }
    }
}

/// The numbers that stand for the operators of a list.
pub open spec fn codes_of(kinds: Seq<MutationType>) -> Seq<u8> {
    Seq::new(kinds.len(), |i: int| kinds[i].code())
}

/// The queue of the operators' turns: `n` turns, taken by the operators of
/// `order` one after the other, again and again. Without operators there is
/// no turn.
pub open spec fn round_robin(order: Seq<MutationType>, n: nat) -> Seq<MutationType> {
    if order.len() == 0 {
        Seq::empty()
    } else {
        Seq::new(n, |k: int| order[k % (order.len() as int)])
    }
}

/// The number of attempts that the driver makes at most: `ATTEMPTS` for
/// each mutant asked for, and no more than the machine can count.
pub open spec fn budget(n: nat) -> nat {
    if n * ATTEMPTS <= usize::MAX {
        n * (ATTEMPTS as nat)
    } else {
        usize::MAX as nat
    }
}

/// The queue of turns after a run of attempts. Each attempt is made by the
/// operator at the head of the queue, which leaves the queue. Where the
/// attempt's text is not new, the operator goes back to the end of the
/// queue, to have its turn again.
pub open spec fn queue_after(
    order: Seq<MutationType>,
    n: nat,
    source: Seq<u8>,
    attempts: Seq<Attempt>,
) -> Seq<MutationType>
    decreases attempts.len(),
{
    if attempts.len() == 0 {
        round_robin(order, n)
    } else {
        let before = queue_after(order, n, source, attempts.drop_last());
        if is_new(source, attempts, attempts.len() - 1) {
            before.drop_first()
        } else {
            before.drop_first().push(before.first())
        }
    }
}

/// Every operator can rewrite a source text of `len` bytes at each of its
/// mutation points.
pub open spec fn all_ready(points: Seq<Point>, len: int) -> bool {
    forall|i: int| 0 <= i < points.len() ==> (#[trigger] points[i]).0.ready(&points[i].1, len)
}

/// The attempt is one that `operator` can make: its text is a mutant that
/// the operator can make of `source` at one of its mutation points.
pub open spec fn drawn_from(
    attempt: Attempt,
    operator: MutationType,
    points: Seq<Point>,
    source: Seq<u8>,
) -> bool {
    &&& attempt.operator == operator
    &&& exists|node: SolAST| #[trigger]
        nodes_for(points, operator).contains(node) && operator.can_yield(
            &node,
            source,
            attempt.text,
        )
}

/// Attempt `k` is made in its turn: after the attempts before it the queue
/// holds a turn, and the attempt is one that the operator at the head of
/// the queue can make.
pub open spec fn turn_taken(
    attempts: Seq<Attempt>,
    k: int,
    points: Seq<Point>,
    n: nat,
    source: Seq<u8>,
) -> bool {
    let queue = queue_after(first_seen(kinds_of(points)), n, source, attempts.take(k));
    queue.len() > 0 && drawn_from(attempts[k], queue.first(), points, source)
}

/// Every attempt is made in its turn.
pub open spec fn valid_turns(
    attempts: Seq<Attempt>,
    points: Seq<Point>,
    n: nat,
    source: Seq<u8>,
) -> bool {
    forall|k: int| 0 <= k < attempts.len() ==> #[trigger] turn_taken(attempts, k, points, n, source)
}

/// The attempts are a run that the driver can make: each is made in its
/// turn, and the run ends where the queue is empty or the budget is used
/// up, whichever comes first.
pub open spec fn possible_run(
    attempts: Seq<Attempt>,
    points: Seq<Point>,
    n: nat,
    source: Seq<u8>,
) -> bool {
    &&& attempts.len() <= budget(n)
    &&& valid_turns(attempts, points, n, source)
    &&& (queue_after(first_seen(kinds_of(points)), n, source, attempts).len() == 0
        || attempts.len() == budget(n))
}

/// An operator without a rewriting rule has a turn in the queue.
pub open spec fn meets_unsupported(points: Seq<Point>, n: nat) -> bool {
    let queue = round_robin(first_seen(kinds_of(points)), n);
    exists|k: int| 0 <= k < queue.len() && !(#[trigger] queue[k]).has_rule()
}

/// What the driver leaves for a tree, a list of operators, the number `n`
/// of mutants asked for, the name of the source file and its text: the
/// mutants and the number of attempts made, or an error.
///
/// Where some operator cannot rewrite the source at one of its mutation
/// points, the node is reported as malformed. Else, where an operator
/// without a rewriting rule has a turn in the queue, that operator is
/// reported as not supported. Else the result is what some possible run of
/// attempts leaves.
pub open spec fn sampled(
    root: &SolAST,
    operators: Seq<MutationType>,
    n: nat,
    fnm: Seq<char>,
    source: Seq<u8>,
    result: Result<(Seq<MutantView>, nat), MutationError>,
) -> bool {
    let points = mutation_points(root, operators);
    if !all_ready(points, source.len() as int) {
        result == Err::<(Seq<MutantView>, nat), MutationError>(MutationError::MalformedNode)
    } else if meets_unsupported(points, n) {
        result == Err::<(Seq<MutantView>, nat), MutationError>(MutationError::UnsupportedOperator)
    } else {
        &&& result matches Ok(left)
        &&& exists|attempts: Seq<Attempt>| #[trigger]
            possible_run(attempts, points, n, source) && left.0 == accepted(source, fnm, attempts)
                && left.1 == attempts.len()
    }
}

/// What a run leaves that stands at a queue of turns, a list of accepted
/// mutants and a number of attempts made, with the generator `rand`: the
/// mutants, the number of attempts, and the generator at the end.
///
/// The run is over where no turn is left or the budget is used up. Else
/// the operator at the head of the queue has its turn: one of its mutation
/// points is drawn, and then its mutant there. A mutant whose text differs
/// from the source and from every accepted mutant is accepted; for any
/// other the operator goes back to the end of the queue.
pub open spec fn run_from(
    points: Seq<Point>,
    n: nat,
    fnm: Seq<char>,
    source: Seq<u8>,
    queue: Seq<MutationType>,
    kept: Seq<MutantView>,
    attempts: nat,
    rand: Pcg64,
) -> (Seq<MutantView>, nat, Pcg64)
    decreases budget(n) - attempts,
{
    if queue.len() == 0 || attempts >= budget(n) {
        (kept, attempts, rand)
    } else {
        let operator = queue.first();
        let nodes = nodes_for(points, operator);
        let point = chosen(rand, nodes.len());
        let node = nodes[point.0 as int];
        let text = operator.drawn_mutant(&node, source, point.1);
        let after = operator.drawn_choice(&node, source, point.1).1;
        if text != source && !holds_text(kept, text) {
            run_from(
                points,
                n,
                fnm,
                source,
                queue.drop_first(),
                kept.push(
                    MutantView {
                        name: file_name(fnm, attempts),
                        attempt: attempts,
                        operator: operator,
                        text: text,
                    },
                ),
                attempts + 1,
                after,
            )
        } else {
            run_from(
                points,
                n,
                fnm,
                source,
                queue.drop_first().push(operator),
                kept,
                attempts + 1,
                after,
            )
        }
    }
}

/// What the run for a tree, a list of operators, the number `n` of mutants
/// asked for, the name of the source file and its text leaves with the
/// generator `rand`: the mutants, the number of attempts, and the generator
/// at the end.
pub open spec fn run_of(
    root: &SolAST,
    operators: Seq<MutationType>,
    n: nat,
    fnm: Seq<char>,
    source: Seq<u8>,
    rand: Pcg64,
) -> (Seq<MutantView>, nat, Pcg64) {
    let points = mutation_points(root, operators);
    run_from(
        points,
        n,
        fnm,
        source,
        round_robin(first_seen(kinds_of(points)), n),
        Seq::empty(),
        0,
        rand,
    )
}

/// What a run of the driver leaves: the accepted mutants, and the number of
/// attempts that were made.
#[derive(Debug)]
pub struct Sampling {
    /// The accepted mutants, in the order of their attempts.
    pub mutants: Vec<Mutant>,
    /// The number of attempts made.
    pub attempts: usize,
}

/// `Itertools::unique` of the crate `itertools`, on the numbers of a list:
/// each number once, at the place of its first occurrence.
#[verifier::external_body]
fn unique_codes(codes: &Vec<u8>) -> (distinct: Vec<u8>)
    ensures
        distinct@ == first_seen(codes@),
{
    codes.iter().unique().cloned().collect()
}

/// An item is among the distinct items of a list where it is in the list.
pub proof fn lemma_first_seen_contains<T>(items: Seq<T>, x: T)
    ensures
        first_seen(items).contains(x) <==> items.contains(x),
    decreases items.len(),
{
    if items.len() > 0 {
        let front = items.drop_last();
        lemma_first_seen_contains(front, x);
        let earlier = first_seen(front);
        if items.contains(x) {
            let i = choose|i: int| 0 <= i < items.len() && items[i] == x;
            if i < front.len() {
                assert(front[i] == x);
            }
            if !earlier.contains(x) {
                assert(earlier.push(items.last())[earlier.len() as int] == x);
            }
        }
        if first_seen(items).contains(x) {
            if earlier.contains(x) {
                let i = choose|i: int| 0 <= i < front.len() && front[i] == x;
                assert(items[i] == x);
            } else {
                assert(items[items.len() - 1] == x);
            }
        }
        if earlier.contains(x) {
            let i = choose|i: int| 0 <= i < earlier.len() && earlier[i] == x;
            assert(first_seen(items)[i] == x);
        }
    }
}

/// No item stands twice among the distinct items of a list.
pub proof fn lemma_first_seen_distinct<T>(items: Seq<T>)
    ensures
        forall|i: int, j: int|
            0 <= i < j < first_seen(items).len() ==> first_seen(items)[i] != first_seen(items)[j],
    decreases items.len(),
{
    if items.len() > 0 {
        lemma_first_seen_distinct(items.drop_last());
        let earlier = first_seen(items.drop_last());
        let all = first_seen(items);
        assert forall|i: int, j: int| 0 <= i < j < all.len() implies all[i] != all[j] by {
            if j == earlier.len() {
                assert(earlier[i] == all[i]);
                assert(earlier.contains(all[i]));
            }
        }
    }
}

/// The distinct numbers of the operators are the numbers of the distinct
/// operators.
proof fn lemma_first_seen_codes(kinds: Seq<MutationType>)
    ensures
        first_seen(codes_of(kinds)) == codes_of(first_seen(kinds)),
    decreases kinds.len(),
{
    if kinds.len() == 0 {
        assert(first_seen(codes_of(kinds)) =~= codes_of(first_seen(kinds)));
    } else {
        let front = kinds.drop_last();
        lemma_first_seen_codes(front);
        assert(codes_of(kinds).drop_last() =~= codes_of(front));
        let earlier = first_seen(front);
        let last = kinds.last();
        if earlier.contains(last) {
            let i = choose|i: int| 0 <= i < earlier.len() && earlier[i] == last;
            assert(codes_of(earlier)[i] == last.code());
        }
        if codes_of(earlier).contains(last.code()) {
            let i = choose|i: int|
                0 <= i < codes_of(earlier).len() && codes_of(earlier)[i] == last.code();
            assert(earlier[i].code() == last.code());
            assert(earlier[i] == last);
        }
        assert(first_seen(codes_of(kinds)) =~= codes_of(first_seen(kinds)));
    }
}

/// An operator that has a mutation point has a node to be applied at.
proof fn lemma_nodes_for_kind(points: Seq<Point>, operator: MutationType)
    requires
        kinds_of(points).contains(operator),
    ensures
        nodes_for(points, operator).len() > 0,
    decreases points.len(),
{
    let i = choose|i: int| 0 <= i < points.len() && kinds_of(points)[i] == operator;
    if i < points.len() - 1 {
        let front = points.drop_last();
        assert(kinds_of(front)[i] == operator);
        lemma_nodes_for_kind(front, operator);
    }
}

/// A node that an operator is applied at is the node of one of the
/// operator's mutation points.
proof fn lemma_nodes_for_point(points: Seq<Point>, operator: MutationType, node: SolAST)
    requires
        nodes_for(points, operator).contains(node),
    ensures
        points.contains((operator, node)),
    decreases points.len(),
{
    if points.len() > 0 {
        let front = points.drop_last();
        let earlier = nodes_for(front, operator);
        if earlier.contains(node) {
            lemma_nodes_for_point(front, operator, node);
            let i = choose|i: int| 0 <= i < front.len() && front[i] == (operator, node);
            assert(points[i] == (operator, node));
        } else {
            let i = choose|i: int|
                0 <= i < nodes_for(points, operator).len() && nodes_for(points, operator)[i]
                    == node;
            assert(i == earlier.len());
            assert(points[points.len() - 1] == (operator, node));
        }
    }
}

/// The mutation points of the tree for the operators: each node that lies
/// inside the definition of a function and under no call of `assert`, with
/// each operator that applies at it.
pub fn collect_points<'a>(root: &'a SolAST, operators: &Vec<MutationType>) -> (points: Vec<
    (MutationType, &'a SolAST),
>)
    ensures
        point_values(points@) == mutation_points(root, operators@),
{
    let nodes = root.traverse(&Everywhere, &AssertCall, &FunctionBoundary);
    let ghost all = nodes_of(nodes@);
    let mut points: Vec<(MutationType, &'a SolAST)> = Vec::new();
    let mut i: usize = 0;
    assert(point_values(points@) =~= points_in(operators@, all.take(0)));
    while i < nodes.len()
        invariant
            i <= nodes.len(),
            all == nodes_of(nodes@),
            point_values(points@) == points_in(operators@, all.take(i as int)),
        decreases nodes.len() - i,
    {
        let node = nodes[i];
        let ghost before = point_values(points@);
        let mut j: usize = 0;
        assert(point_values(points@) =~= before + points_at(operators@.take(0), node));
        while j < operators.len()
            invariant
                j <= operators.len(),
                point_values(points@) == before + points_at(operators@.take(j as int), node),
            decreases operators.len() - j,
        {
            let ghost so_far = point_values(points@);
            proof {
                assert(operators@.take(j + 1).drop_last() =~= operators@.take(j as int));
            }
            if operators[j].is_mutation_point(node) {
                points.push((operators[j], node));
                assert(point_values(points@) =~= so_far.push((operators@[j as int], *node)));
            }
            assert(point_values(points@) =~= before + points_at(operators@.take(j + 1), node));
            j += 1;
        }
        proof {
            assert(operators@.take(operators@.len() as int) =~= operators@);
            assert(all.take(i + 1).drop_last() =~= all.take(i as int));
            assert(all.take(i + 1).last() == *node);
        }
        i += 1;
    }
    proof {
        assert(all.take(all.len() as int) =~= all);
    }
    points
}

/// Whether every operator can rewrite a source text of `len` bytes at each
/// of its mutation points.
fn check_points(points: &Vec<(MutationType, &SolAST)>, len: usize) -> (ok: bool)
    ensures
        ok == all_ready(point_values(points@), len as int),
{
    let mut i: usize = 0;
    while i < points.len()
        invariant
            i <= points.len(),
            forall|j: int|
                0 <= j < i ==> (#[trigger] point_values(points@)[j]).0.ready(
                    &point_values(points@)[j].1,
                    len as int,
                ),
        decreases points.len() - i,
    {
        if !points[i].0.can_mutate(points[i].1, len) {
            assert(!point_values(points@)[i as int].0.ready(
                &point_values(points@)[i as int].1,
                len as int,
            ));
            return false;
        }
        i += 1;
    }
    true
}

/// The distinct operators of the mutation points, each at the place where
/// it is first seen.
fn distinct_operators(points: &Vec<(MutationType, &SolAST)>) -> (order: Vec<MutationType>)
    ensures
        order@ == first_seen(kinds_of(point_values(points@))),
{
    let ghost kinds = kinds_of(point_values(points@));
    let mut codes: Vec<u8> = Vec::new();
    let mut i: usize = 0;
    while i < points.len()
        invariant
            i <= points.len(),
            kinds == kinds_of(point_values(points@)),
            codes@ == codes_of(kinds.take(i as int)),
        decreases points.len() - i,
    {
        codes.push(points[i].0.to_code());
        assert(codes@ =~= codes_of(kinds.take(i + 1)));
        i += 1;
    }
    proof {
        assert(kinds.take(kinds.len() as int) =~= kinds);
        lemma_first_seen_codes(kinds);
    }
    let distinct = unique_codes(&codes);
    let mut order: Vec<MutationType> = Vec::new();
    let mut j: usize = 0;
    while j < distinct.len()
        invariant
            j <= distinct.len(),
            distinct@ == codes_of(first_seen(kinds)),
            order@ == first_seen(kinds).take(j as int),
        decreases distinct.len() - j,
    {
        order.push(MutationType::from_code(distinct[j]));
        assert(order@ =~= first_seen(kinds).take(j + 1)) by {
            assert(distinct@[j as int] == first_seen(kinds)[j as int].code());
        }
        j += 1;
    }
    assert(order@ =~= first_seen(kinds));
    order
}

/// The nodes of the mutation points that belong to `operator`.
fn points_of<'a>(points: &Vec<(MutationType, &'a SolAST)>, operator: MutationType) -> (nodes: Vec<
    &'a SolAST,
>)
    ensures
        nodes_of(nodes@) == nodes_for(point_values(points@), operator),
{
    let ghost all = point_values(points@);
    let mut nodes: Vec<&'a SolAST> = Vec::new();
    let mut i: usize = 0;
    assert(nodes_of(nodes@) =~= nodes_for(all.take(0), operator));
    while i < points.len()
        invariant
            i <= points.len(),
            all == point_values(points@),
            nodes_of(nodes@) == nodes_for(all.take(i as int), operator),
        decreases points.len() - i,
    {
        proof {
            assert(all.take(i + 1).drop_last() =~= all.take(i as int));
        }
        if points[i].0 == operator {
            nodes.push(points[i].1);
        }
        assert(nodes_of(nodes@) =~= nodes_for(all.take(i + 1), operator));
        i += 1;
    }
    proof {
        assert(all.take(all.len() as int) =~= all);
    }
    nodes
}

/// The number of attempts that the driver makes at most for `n` mutants.
fn attempt_budget(n: usize) -> (limit: usize)
    ensures
        limit == budget(n as nat),
{
    match n.checked_mul(ATTEMPTS) {
        Some(limit) => limit,
        None => usize::MAX,
    }
}

/// The queue of turns for `n` mutants, or nothing where an operator without
/// a rewriting rule has a turn in it.
fn fill_queue(order: &Vec<MutationType>, n: usize) -> (queue: Option<VecDeque<MutationType>>)
    ensures
        queue matches Some(q) ==> q@ == round_robin(order@, n as nat) && forall|k: int|
            0 <= k < q@.len() ==> (#[trigger] q@[k]).has_rule() && order@.contains(q@[k]),
        queue is None ==> exists|k: int|
            0 <= k < round_robin(order@, n as nat).len() && !(#[trigger] round_robin(
                order@,
                n as nat,
            )[k]).has_rule(),
{
    let ghost turns = round_robin(order@, n as nat);
    let mut queue: VecDeque<MutationType> = VecDeque::new();
    if order.len() == 0 {
        assert(queue@ =~= turns);
        return Some(queue);
    }
    let mut k: usize = 0;
    assert(queue@ =~= turns.take(0));
    while k < n
        invariant
            k <= n,
            order@.len() > 0,
            turns == round_robin(order@, n as nat),
            queue@ == turns.take(k as int),
            forall|j: int| 0 <= j < k ==> (#[trigger] turns[j]).has_rule() && order@.contains(turns[j]),
        decreases n - k,
    {
        let operator = order[k % order.len()];
        assert(turns[k as int] == operator);
        if !operator.is_supported() {
            return None;
        }
        queue.push_back(operator);
        assert(queue@ =~= turns.take(k + 1));
        k += 1;
    }
    assert(turns.take(n as int) =~= turns);
    Some(queue)
}

/// Up to `n` mutants of `source`, the text of the file `fnm` whose tree is
/// `root`, and the number of attempts it took. The driver collects the
/// mutation points of the operators and gives the operators their turns.
/// In each turn it draws one of the operator's mutation points and one
/// mutant there. A mutant whose text is new is kept; for one whose text is
/// not, the operator has its turn again, later. The run ends where no turn
/// is left or `ATTEMPTS` attempts were made for each mutant asked for.
pub fn sample_mutants(
    root: &SolAST,
    operators: &Vec<MutationType>,
    n: usize,
    rand: &mut Pcg64,
    fnm: &str,
    source: &[u8],
) -> (result: Result<Sampling, MutationError>)
    ensures
        sampled(
            root,
            operators@,
            n as nat,
            fnm@,
            source@,
            match result {
                Ok(run) => Ok((mutants_of(run.mutants@), run.attempts as nat)),
                Err(error) => Err(error),
            },
        ),
        result matches Ok(run) ==> (mutants_of(run.mutants@), run.attempts as nat, *final(rand))
            == run_of(root, operators@, n as nat, fnm@, source@, *old(rand)),
        result is Err ==> *final(rand) == *old(rand),
{
    let points = collect_points(root, operators);
    let ghost all = point_values(points@);
    if !check_points(&points, source.len()) {
        return Err(MutationError::MalformedNode);
    }
    let order = distinct_operators(&points);
    let mut queue = match fill_queue(&order, n) {
        Some(queue) => queue,
        None => {
            return Err(MutationError::UnsupportedOperator);
        },
    };
    let mut groups: HashMap<u8, Vec<&SolAST>> = HashMap::new();
    let mut i: usize = 0;
    while i < order.len()
        invariant
            i <= order.len(),
            all == point_values(points@),
            forall|j: int| 0 <= j < i ==> groups@.contains_key((#[trigger] order@[j]).code()),
            forall|m: MutationType|
                groups@.contains_key(m.code()) ==> nodes_of((#[trigger] groups@[m.code()])@)
                    == nodes_for(all, m),
        decreases order.len() - i,
    {
        groups.insert(order[i].to_code(), points_of(&points, order[i]));
        i += 1;
    }
    let limit = attempt_budget(n);
    let mut kept: Vec<Mutant> = Vec::new();
    let mut attempts: usize = 0;
    let ghost mut made: Seq<Attempt> = Seq::empty();
    assert(mutants_of(kept@) =~= accepted(source@, fnm@, made));
    while queue.len() > 0 && attempts < limit
        invariant
            attempts <= limit,
            limit == budget(n as nat),
            made.len() == attempts,
            all == mutation_points(root, operators@),
            order@ == first_seen(kinds_of(all)),
            all_ready(all, source@.len() as int),
            !meets_unsupported(all, n as nat),
            forall|j: int|
                0 <= j < order@.len() ==> groups@.contains_key((#[trigger] order@[j]).code()),
            forall|m: MutationType|
                groups@.contains_key(m.code()) ==> nodes_of((#[trigger] groups@[m.code()])@)
                    == nodes_for(all, m),
            queue@ == queue_after(order@, n as nat, source@, made),
            forall|i: int|
                0 <= i < queue@.len() ==> (#[trigger] queue@[i]).has_rule() && order@.contains(
                    queue@[i],
                ),
            valid_turns(made, all, n as nat, source@),
            mutants_of(kept@) == accepted(source@, fnm@, made),
            run_from(all, n as nat, fnm@, source@, queue@, mutants_of(kept@), attempts as nat, *rand)
                == run_of(root, operators@, n as nat, fnm@, source@, *old(rand)),
        decreases limit - attempts,
    {
        let ghost turns = queue@;
        let ghost before = made;
        let ghost held = mutants_of(kept@);
        let ghost start = *rand;
        let operator = queue.pop_front().unwrap();
        assert(operator == turns[0] && queue@ =~= turns.drop_first());
        let found = groups.get(&operator.to_code());
        proof {
            let j = choose|j: int| 0 <= j < order@.len() && order@[j] == operator;
            assert(groups@.contains_key(order@[j].code()));
        }
        let group = found.unwrap();
        proof {
            lemma_first_seen_contains(kinds_of(all), operator);
            lemma_nodes_for_kind(all, operator);
        }
        let index: usize = pick_index(group.len(), rand).unwrap();
        let node = group[index];
        proof {
            assert(nodes_of(group@)[index as int] == *node);
            assert(nodes_for(all, operator).contains(*node));
            lemma_nodes_for_point(all, operator, *node);
            let p = choose|p: int| 0 <= p < all.len() && all[p] == (operator, *node);
            assert(all[p].0.ready(&all[p].1, source@.len() as int));
        }
        let text = match operator.mutate_randomly(node, source, rand) {
            Ok(text) => text,
            Err(error) => {
                return Err(error);
            },
        };
        proof {
            made = before.push(Attempt { operator: operator, text: text@ });
            assert(made.drop_last() =~= before);
            lemma_new_iff_not_kept(source@, fnm@, made);
            assert(drawn_from(made[attempts as int], turns.first(), all, source@));
            assert forall|k: int| 0 <= k < made.len() implies #[trigger] turn_taken(
                made,
                k,
                all,
                n as nat,
                source@,
            ) by {
                if k < attempts {
                    assert(turn_taken(before, k, all, n as nat, source@));
                    assert(made.take(k) =~= before.take(k));
                    assert(made[k] == before[k]);
                } else {
                    assert(made.take(k) =~= before);
                }
            }
        }
        let ghost drawn = text@;
        if !consider(&mut kept, source, fnm, attempts, operator, text) {
            queue.push_back(operator);
        }
        proof {
            let nodes = nodes_for(all, operator);
            let point = chosen(start, nodes.len());
            assert(nodes.len() == group@.len());
            assert(nodes[point.0 as int] == *node);
            assert(drawn == operator.drawn_mutant(&nodes[point.0 as int], source@, point.1));
            assert(run_from(all, n as nat, fnm@, source@, turns, held, attempts as nat, start)
                == run_from(
                all,
                n as nat,
                fnm@,
                source@,
                queue@,
                mutants_of(kept@),
                (attempts + 1) as nat,
                *rand,
            ));
        }
        attempts += 1;
    }
    proof {
        assert(possible_run(made, all, n as nat, source@));
    }
    Ok(Sampling { mutants: kept, attempts: attempts })
}

/// The result of a run as a value, with the number of attempts beside the
/// mutants.
pub open spec fn run_result(result: Result<Vec<Mutant>, MutationError>, attempts: nat) -> Result<
    (Seq<MutantView>, nat),
    MutationError,
> {
    match result {
        Ok(mutants) => Ok((mutants_of(mutants@), attempts)),
        Err(error) => Err(error),
    }
}

/// One run of the driver on one source file.
pub struct RunMutations {
    /// The name of the source file.
    pub fnm: String,
    /// The tree of the source file, or the part of it to mutate.
    pub node: SolAST,
    /// The number of mutants asked for.
    pub num_mutants: usize,
    /// The random stream of this run.
    pub rand: Pcg64,
    /// The directory that the mutants are meant for.
    pub out: String,
    /// The operators to apply.
    pub mutations: Vec<MutationType>,
}

impl RunMutations {
    /// A run on the file `fnm` with the tree `node`, for `num_mutants`
    /// mutants by the operators `muts`, with draws from `rand`.
    pub fn new(
        fnm: String,
        node: SolAST,
        num_mutants: usize,
        rand: Pcg64,
        out: String,
        muts: Vec<MutationType>,
    ) -> (run: Self)
        ensures
            run.fnm == fnm,
            run.node == node,
            run.num_mutants == num_mutants,
            run.rand == rand,
            run.out == out,
            run.mutations == muts,
    {
        Self { fnm, node, num_mutants, rand, out, mutations: muts }
    }

    /// Whether the node is a call of `assert`.
    pub fn is_assert_call(node: &SolAST) -> (b: bool)
        ensures
            b == calls(node, "assert"@),
    {
        is_call_of(node, "assert")
    }

    /// The number of mutation points that the run's operators have in the
    /// run's tree: the number of mutants to ask for where none is given.
    pub fn count_points(&self) -> (count: usize)
        ensures
            count == mutation_points(&self.node, self.mutations@).len(),
    {
        let points = collect_points(&self.node, &self.mutations);
        assert(point_values(points@).len() == points@.len());
        points.len()
    }

    /// The mutants of this run for `source`, the text of the run's file.
    /// The run's random stream moves on; nothing else of the run changes.
    pub fn get_mutations(&mut self, source: &[u8]) -> (result: Result<Vec<Mutant>, MutationError>)
        ensures
            exists|attempts: nat|
                sampled(
                    &old(self).node,
                    old(self).mutations@,
                    old(self).num_mutants as nat,
                    old(self).fnm@,
                    source@,
                    #[trigger] run_result(result, attempts),
                ),
            result matches Ok(mutants) ==> mutants_of(mutants@) == run_of(
                &old(self).node,
                old(self).mutations@,
                old(self).num_mutants as nat,
                old(self).fnm@,
                source@,
                old(self).rand,
            ).0 && final(self).rand == run_of(
                &old(self).node,
                old(self).mutations@,
                old(self).num_mutants as nat,
                old(self).fnm@,
                source@,
                old(self).rand,
            ).2,
            result is Err ==> final(self).rand == old(self).rand,
            final(self).fnm == old(self).fnm,
            final(self).node == old(self).node,
            final(self).num_mutants == old(self).num_mutants,
            final(self).out == old(self).out,
            final(self).mutations == old(self).mutations,
    {
        let run = sample_mutants(
            &self.node,
            &self.mutations,
            self.num_mutants,
            &mut self.rand,
            self.fnm.as_str(),
            source,
        );
        match run {
            Ok(run) => {
                assert(run_result(Ok::<Vec<Mutant>, MutationError>(run.mutants), run.attempts as nat)
                    == Ok::<(Seq<MutantView>, nat), MutationError>(
                    (mutants_of(run.mutants@), run.attempts as nat),
                ));
                Ok(run.mutants)
            },
            Err(error) => {
                assert(run_result(Err::<Vec<Mutant>, MutationError>(error), 0)
                    == Err::<(Seq<MutantView>, nat), MutationError>(error));
                Err(error)
            },
        }
    }
}

/// One mutation point stands for each operator of the list and each node
/// the driver looks at where the operator applies, and for nothing else.
pub proof fn lemma_points_at(operators: Seq<MutationType>, node: &SolAST, point: Point)
    ensures
        points_at(operators, node).contains(point) <==> point.1 == *node && operators.contains(
            point.0,
        ) && point.0.qualifies(node),
    decreases operators.len(),
{
    if operators.len() > 0 {
        let front = operators.drop_last();
        let last = operators.last();
        lemma_points_at(front, node, point);
        let earlier = points_at(front, node);
        let all = points_at(operators, node);
        if earlier.contains(point) {
            let i = choose|i: int| 0 <= i < earlier.len() && earlier[i] == point;
            assert(all[i] == point);
            let j = choose|j: int| 0 <= j < front.len() && front[j] == point.0;
            assert(operators[j] == point.0);
        }
        if all.contains(point) && !earlier.contains(point) {
            let i = choose|i: int| 0 <= i < all.len() && all[i] == point;
            assert(i == earlier.len());
            assert(operators[operators.len() - 1] == point.0);
        }
        if point.1 == *node && operators.contains(point.0) && point.0.qualifies(node) {
            let j = choose|j: int| 0 <= j < operators.len() && operators[j] == point.0;
            if j < front.len() {
                assert(front[j] == point.0);
            } else {
                assert(all[earlier.len() as int] == point);
            }
        }
    }
}

/// The mutation points at the nodes of a list are the pairs of an operator
/// of the list and a node of the list at which the operator applies.
pub proof fn lemma_points_in(operators: Seq<MutationType>, nodes: Seq<SolAST>, point: Point)
    ensures
        points_in(operators, nodes).contains(point) <==> nodes.contains(point.1)
            && operators.contains(point.0) && point.0.qualifies(&point.1),
    decreases nodes.len(),
{
    if nodes.len() > 0 {
        let front = nodes.drop_last();
        let last = nodes.last();
        lemma_points_in(operators, front, point);
        lemma_points_at(operators, &last, point);
        let earlier = points_in(operators, front);
        let here = points_at(operators, &last);
        if earlier.contains(point) {
            let i = choose|i: int| 0 <= i < earlier.len() && earlier[i] == point;
            assert((earlier + here)[i] == point);
            let j = choose|j: int| 0 <= j < front.len() && front[j] == point.1;
            assert(nodes[j] == point.1);
        }
        if here.contains(point) {
            let i = choose|i: int| 0 <= i < here.len() && here[i] == point;
            assert((earlier + here)[earlier.len() + i] == point);
            assert(nodes[nodes.len() - 1] == point.1);
        }
        if (earlier + here).contains(point) {
            let i = choose|i: int| 0 <= i < (earlier + here).len() && (earlier + here)[i] == point;
            if i < earlier.len() {
                assert(earlier[i] == point);
            } else {
                assert(here[i - earlier.len()] == point);
            }
        }
        if nodes.contains(point.1) {
            let j = choose|j: int| 0 <= j < nodes.len() && nodes[j] == point.1;
            if j < front.len() {
                assert(front[j] == point.1);
            }
        }
    }
}

/// What the mutation points of a tree are: the pairs of one of the
/// operators and a node the driver looks at, at which the operator applies.
/// Each such node lies inside the definition of a function of the tree, and
/// none is a call of `assert`: no node outside every definition of a
/// function becomes a mutation point, and no call of `assert`.
pub proof fn lemma_mutation_points(root: &SolAST, operators: Seq<MutationType>)
    ensures
        forall|point: Point| #[trigger]
            mutation_points(root, operators).contains(point) <==> mutable_nodes(root).contains(
                point.1,
            ) && operators.contains(point.0) && point.0.qualifies(&point.1),
        forall|node: SolAST| #[trigger]
            mutable_nodes(root).contains(node) ==> in_scope(root, &FunctionBoundary, node)
                && !calls(&node, "assert"@) && subtree(root).contains(node),
{
    assert forall|point: Point| #[trigger]
        mutation_points(root, operators).contains(point) <==> mutable_nodes(root).contains(
            point.1,
        ) && operators.contains(point.0) && point.0.qualifies(&point.1) by {
        lemma_points_in(operators, mutable_nodes(root), point);
    }
    lemma_selected_in_scope(root, &Everywhere, &AssertCall, &FunctionBoundary);
    lemma_selected_nodes(root, &Everywhere, &AssertCall, &FunctionBoundary, false);
}

/// A tree without the definition of a function has no mutation point.
pub proof fn lemma_no_function_no_points(root: &SolAST, operators: Seq<MutationType>)
    requires
        forall|node: SolAST| #[trigger]
            subtree(root).contains(node) ==> !kind_is(&node, "FunctionDefinition"@),
    ensures
        mutation_points(root, operators) == Seq::<Point>::empty(),
{
    lemma_mutation_points(root, operators);
    let points = mutation_points(root, operators);
    if points.len() > 0 {
        assert(points.contains(points[0]));
        assert(in_scope(root, &FunctionBoundary, points[0].1));
    }
    assert(points =~= Seq::<Point>::empty());
}

/// A call of `assert` and everything below it gives no mutation point,
/// inside the definition of a function or outside.
pub proof fn lemma_assert_call_left_out(node: &SolAST, operators: Seq<MutationType>, inside: bool)
    requires
        calls(node, "assert"@),
    ensures
        points_in(operators, selected(node, &Everywhere, &AssertCall, &FunctionBoundary, inside))
            == Seq::<Point>::empty(),
{
}

/// Two runs on the same tree, the same source text, the same operators, the
/// same number of mutants asked for and the same file name, each with the
/// generator of the same seed, leave the same mutants in the same order,
/// after the same number of attempts.
pub proof fn lemma_same_seed_same_mutants(
    root: &SolAST,
    operators: Seq<MutationType>,
    n: nat,
    fnm: Seq<char>,
    source: Seq<u8>,
    seed: u64,
    first: (Seq<MutantView>, nat, Pcg64),
    second: (Seq<MutantView>, nat, Pcg64),
)
    requires
        first == run_of(root, operators, n, fnm, source, seeded_stream(seed)),
        second == run_of(root, operators, n, fnm, source, seeded_stream(seed)),
    ensures
        first.0 == second.0,
        first.1 == second.1,
{
}

/// A run whose attempts are made in their turns stays one when its last
/// attempt is taken away.
proof fn lemma_valid_front(attempts: Seq<Attempt>, points: Seq<Point>, n: nat, source: Seq<u8>)
    requires
        attempts.len() > 0,
        valid_turns(attempts, points, n, source),
    ensures
        valid_turns(attempts.drop_last(), points, n, source),
        queue_after(first_seen(kinds_of(points)), n, source, attempts.drop_last()).len() > 0,
        drawn_from(
            attempts.last(),
            queue_after(first_seen(kinds_of(points)), n, source, attempts.drop_last()).first(),
            points,
            source,
        ),
{
    let front = attempts.drop_last();
    assert forall|k: int| 0 <= k < front.len() implies #[trigger] turn_taken(
        front,
        k,
        points,
        n,
        source,
    ) by {
        assert(turn_taken(attempts, k, points, n, source));
        assert(front.take(k) =~= attempts.take(k));
    }
    assert(turn_taken(attempts, attempts.len() - 1, points, n, source));
    assert(attempts.take(attempts.len() - 1) =~= front);
}

/// A list without operators holds no operator at all.
proof fn lemma_nothing_made(operators: Seq<MutationType>)
    requires
        operators.len() == 0,
    ensures
        operators.to_multiset() == vstd::multiset::Multiset::<MutationType>::empty(),
{
    vstd::seq_lib::to_multiset_len(operators);
    vstd::multiset::lemma_multiset_empty_len(operators.to_multiset());
}

/// The operators that made the mutants of a list.
pub open spec fn makers(mutants: Seq<MutantView>) -> Seq<MutationType> {
    Seq::new(mutants.len(), |i: int| mutants[i].operator)
}

/// Each turn of the queue is either still in the queue or has made a
/// mutant: the operators in the queue and the operators of the accepted
/// mutants are, taken together, the operators of the turns the run began
/// with. So a run leaves no more than `n` mutants, and each operator has
/// made no more mutants than it had turns.
pub proof fn lemma_turns_kept(
    attempts: Seq<Attempt>,
    points: Seq<Point>,
    n: nat,
    fnm: Seq<char>,
    source: Seq<u8>,
)
    requires
        valid_turns(attempts, points, n, source),
    ensures
        queue_after(first_seen(kinds_of(points)), n, source, attempts).to_multiset().add(
            makers(accepted(source, fnm, attempts)).to_multiset(),
        ) == round_robin(first_seen(kinds_of(points)), n).to_multiset(),
        queue_after(first_seen(kinds_of(points)), n, source, attempts).len() + accepted(
            source,
            fnm,
            attempts,
        ).len() == round_robin(first_seen(kinds_of(points)), n).len(),
        accepted(source, fnm, attempts).len() <= n,
        forall|i: int|
            0 <= i < queue_after(first_seen(kinds_of(points)), n, source, attempts).len()
                ==> first_seen(kinds_of(points)).contains(
                #[trigger] queue_after(first_seen(kinds_of(points)), n, source, attempts)[i],
            ),
    decreases attempts.len(),
{
    let order = first_seen(kinds_of(points));
    let turns = round_robin(order, n);
    if attempts.len() == 0 {
        assert(makers(accepted(source, fnm, attempts)) =~= Seq::<MutationType>::empty());
        lemma_nothing_made(Seq::<MutationType>::empty());
        assert(turns.to_multiset().add(vstd::multiset::Multiset::empty()) =~= turns.to_multiset());
        assert forall|i: int| 0 <= i < turns.len() implies order.contains(#[trigger] turns[i]) by {
            assert(turns[i] == order[i % (order.len() as int)]);
        }
    } else {
        let front = attempts.drop_last();
        lemma_valid_front(attempts, points, n, source);
        lemma_turns_kept(front, points, n, fnm, source);
        let queue = queue_after(order, n, source, front);
        let head = queue.first();
        let made = makers(accepted(source, fnm, front));
        assert(queue.remove(0) =~= queue.drop_first());
        vstd::seq_lib::to_multiset_remove(queue, 0);
        vstd::seq_lib::to_multiset_contains(queue, head);
        assert(queue.contains(head));
        assert(queue[0] == head);
        let rest = queue.drop_first();
        assert forall|i: int| 0 <= i < rest.len() implies order.contains(#[trigger] rest[i]) by {
            assert(rest[i] == queue[i + 1]);
        }
        if is_new(source, attempts, attempts.len() - 1) {
            assert(makers(accepted(source, fnm, attempts)) =~= made.push(head));
            vstd::seq_lib::to_multiset_build(made, head);
            assert(rest.to_multiset().add(made.push(head).to_multiset()) =~= queue.to_multiset().add(
                made.to_multiset(),
            ));
        } else {
            vstd::seq_lib::to_multiset_build(rest, head);
            assert(rest.push(head).to_multiset() =~= queue.to_multiset());
            assert forall|i: int| 0 <= i < rest.push(head).len() implies order.contains(
                #[trigger] rest.push(head)[i],
            ) by {
                if i < rest.len() {
                    assert(rest.push(head)[i] == rest[i]);
                }
            }
        }
    }
}

/// With one mutation point at which the operator has one outcome, which is
/// not the source, a run for two mutants or more uses up its budget: it
/// makes `ATTEMPTS` attempts for each mutant asked for, and leaves one
/// mutant, that of the first attempt.
pub proof fn lemma_single_point_run(
    point: Point,
    n: nat,
    fnm: Seq<char>,
    source: Seq<u8>,
    text: Seq<u8>,
    attempts: Seq<Attempt>,
)
    requires
        n >= 2,
        n * ATTEMPTS <= usize::MAX,
        text != source,
        forall|choice: crate::mutation::Choice| #[trigger]
            point.0.offers(&point.1, source, choice) ==> point.0.mutant(&point.1, source, choice)
                == text,
        possible_run(attempts, seq![point], n, source),
    ensures
        attempts.len() == n * ATTEMPTS,
        accepted(source, fnm, attempts).len() == 1,
        accepted(source, fnm, attempts)[0].attempt == 0,
        accepted(source, fnm, attempts)[0].text == text,
{
    let points = seq![point];
    let kinds = kinds_of(points);
    assert(kinds.drop_last() =~= Seq::<MutationType>::empty());
    reveal_with_fuel(first_seen, 2);
    assert(first_seen(kinds) =~= seq![point.0]);
    assert(points.drop_last() =~= Seq::<Point>::empty());
    reveal_with_fuel(nodes_for, 2);
    assert(nodes_for(points, point.0) =~= seq![point.1]);
    let order = first_seen(kinds);
    assert forall|k: int| 0 <= k < attempts.len() implies (#[trigger] attempts[k]).text == text by {
        assert(turn_taken(attempts, k, points, n, source));
        let front = attempts.take(k);
        assert forall|j: int| 0 <= j < front.len() implies #[trigger] turn_taken(
            front,
            j,
            points,
            n,
            source,
        ) by {
            assert(turn_taken(attempts, j, points, n, source));
            assert(front.take(j) =~= attempts.take(j));
        }
        lemma_turns_kept(front, points, n, fnm, source);
        let queue = queue_after(order, n, source, front);
        assert(order.contains(queue[0]));
        assert(queue.first() == point.0);
        assert(drawn_from(attempts[k], point.0, points, source));
        let node = choose|node: SolAST| #[trigger]
            nodes_for(points, point.0).contains(node) && point.0.can_yield(
                &node,
                source,
                attempts[k].text,
            );
        assert(node == point.1);
    }
    lemma_turns_kept(attempts, points, n, fnm, source);
    assert(round_robin(order, n).len() == n);
    if attempts.len() > 0 {
        lemma_accepted_once(source, fnm, attempts, text);
    } else {
        assert(budget(n) == n * ATTEMPTS);
    }
}

/// A run that leaves as many mutants as were asked for, where at least one
/// was asked for per operator, leaves a mutant of every operator that has a
/// mutation point.
pub proof fn lemma_full_run_serves_all(
    attempts: Seq<Attempt>,
    points: Seq<Point>,
    n: nat,
    fnm: Seq<char>,
    source: Seq<u8>,
    operator: MutationType,
)
    requires
        valid_turns(attempts, points, n, source),
        accepted(source, fnm, attempts).len() == n,
        first_seen(kinds_of(points)).len() <= n,
        kinds_of(points).contains(operator),
    ensures
        exists|i: int|
            0 <= i < accepted(source, fnm, attempts).len() && (#[trigger] accepted(
                source,
                fnm,
                attempts,
            )[i]).operator == operator,
{
    let order = first_seen(kinds_of(points));
    let turns = round_robin(order, n);
    let queue = queue_after(order, n, source, attempts);
    let made = makers(accepted(source, fnm, attempts));
    lemma_turns_kept(attempts, points, n, fnm, source);
    lemma_first_seen_contains(kinds_of(points), operator);
    let p = choose|p: int| 0 <= p < order.len() && order[p] == operator;
    assert(turns.len() == n);
    vstd::arithmetic::div_mod::lemma_small_mod(p as nat, order.len());
    assert(turns[p] == operator);
    assert(turns.contains(operator));
    assert(queue =~= Seq::<MutationType>::empty());
    lemma_nothing_made(queue);
    assert(made.to_multiset() =~= turns.to_multiset());
    vstd::seq_lib::to_multiset_contains(turns, operator);
    vstd::seq_lib::to_multiset_contains(made, operator);
    let i = choose|i: int| 0 <= i < made.len() && made[i] == operator;
    assert(accepted(source, fnm, attempts)[i].operator == operator);
}

/// Each accepted mutant is the text of the attempt it is numbered after,
/// that text is new there, and the mutants stand in the order of their
/// attempts.
pub proof fn lemma_accepted_attempts(source: Seq<u8>, fnm: Seq<char>, attempts: Seq<Attempt>)
    ensures
        accepted(source, fnm, attempts).len() <= attempts.len(),
        forall|i: int|
            0 <= i < accepted(source, fnm, attempts).len() ==> {
                let m = #[trigger] accepted(source, fnm, attempts)[i];
                &&& m.attempt < attempts.len()
                &&& m.text == attempts[m.attempt as int].text
                &&& m.operator == attempts[m.attempt as int].operator
                &&& m.name == file_name(fnm, m.attempt)
                &&& is_new(source, attempts, m.attempt as int)
            },
        forall|i: int, j: int|
            0 <= i < j < accepted(source, fnm, attempts).len() ==> (#[trigger] accepted(
                source,
                fnm,
                attempts,
            )[i]).attempt < (#[trigger] accepted(source, fnm, attempts)[j]).attempt,
    decreases attempts.len(),
{
    if attempts.len() > 0 {
        let front = attempts.drop_last();
        lemma_accepted_attempts(source, fnm, front);
        let earlier = accepted(source, fnm, front);
        let all = accepted(source, fnm, attempts);
        assert forall|i: int| 0 <= i < all.len() implies {
            let m = #[trigger] all[i];
            &&& m.attempt < attempts.len()
            &&& m.text == attempts[m.attempt as int].text
            &&& m.operator == attempts[m.attempt as int].operator
            &&& m.name == file_name(fnm, m.attempt)
            &&& is_new(source, attempts, m.attempt as int)
        } by {
            if i < earlier.len() {
                let m = earlier[i];
                assert(all[i] == m);
                assert(is_new(source, front, m.attempt as int));
                assert forall|j: int| 0 <= j < m.attempt implies (#[trigger] attempts[j]).text
                    != attempts[m.attempt as int].text by {
                    assert(front[j] == attempts[j]);
                }
            }
        }
    }
}

/// The text of every attempt is the text of the source or that of an
/// accepted mutant.
pub proof fn lemma_accepted_covers(source: Seq<u8>, fnm: Seq<char>, attempts: Seq<Attempt>)
    ensures
        forall|j: int|
            0 <= j < attempts.len() ==> (#[trigger] attempts[j]).text == source || holds_text(
                accepted(source, fnm, attempts),
                attempts[j].text,
            ),
    decreases attempts.len(),
{
    if attempts.len() > 0 {
        let front = attempts.drop_last();
        let last = attempts.len() - 1;
        lemma_accepted_covers(source, fnm, front);
        let earlier = accepted(source, fnm, front);
        let all = accepted(source, fnm, attempts);
        assert forall|j: int| 0 <= j < attempts.len() implies (#[trigger] attempts[j]).text
            == source || holds_text(all, attempts[j].text) by {
            if j < last {
                assert(front[j] == attempts[j]);
                if front[j].text != source {
                    let i = choose|i: int|
                        0 <= i < earlier.len() && (#[trigger] earlier[i]).text == front[j].text;
                    assert(all[i] == earlier[i]);
                }
            } else if is_new(source, attempts, last) {
                assert(all[earlier.len() as int].text == attempts[j].text);
            } else if attempts[j].text != source {
                let e = choose|e: int| 0 <= e < last && attempts[e].text == attempts[last].text;
                assert(front[e] == attempts[e]);
                let i = choose|i: int|
                    0 <= i < earlier.len() && (#[trigger] earlier[i]).text == front[e].text;
                assert(all[i] == earlier[i]);
            }
        }
    }
}

/// The text of the last attempt is new where it differs from the source
/// and from the text of every mutant accepted before.
pub proof fn lemma_new_iff_not_kept(source: Seq<u8>, fnm: Seq<char>, attempts: Seq<Attempt>)
    requires
        attempts.len() > 0,
    ensures
        is_new(source, attempts, attempts.len() - 1) <==> attempts.last().text != source
            && !holds_text(accepted(source, fnm, attempts.drop_last()), attempts.last().text),
{
    let front = attempts.drop_last();
    let last = attempts.len() - 1;
    let earlier = accepted(source, fnm, front);
    lemma_accepted_covers(source, fnm, front);
    lemma_accepted_attempts(source, fnm, front);
    if attempts[last].text != source && !holds_text(earlier, attempts[last].text) {
        assert forall|j: int| 0 <= j < last implies (#[trigger] attempts[j]).text
            != attempts[last].text by {
            assert(front[j] == attempts[j]);
        }
    }
    if is_new(source, attempts, last) && holds_text(earlier, attempts[last].text) {
        let i = choose|i: int|
            0 <= i < earlier.len() && (#[trigger] earlier[i]).text == attempts[last].text;
        let a = earlier[i].attempt as int;
        assert(front[a] == attempts[a]);
    }
}

/// No two accepted mutants have the same text, and none has the text of the
/// source.
pub proof fn lemma_accepted_distinct(source: Seq<u8>, fnm: Seq<char>, attempts: Seq<Attempt>)
    ensures
        forall|i: int|
            0 <= i < accepted(source, fnm, attempts).len() ==> (#[trigger] accepted(
                source,
                fnm,
                attempts,
            )[i]).text != source,
        forall|i: int, j: int|
            0 <= i < j < accepted(source, fnm, attempts).len() ==> (#[trigger] accepted(
                source,
                fnm,
                attempts,
            )[i]).text != (#[trigger] accepted(source, fnm, attempts)[j]).text,
{
    lemma_accepted_attempts(source, fnm, attempts);
    let all = accepted(source, fnm, attempts);
    assert forall|i: int, j: int| 0 <= i < j < all.len() implies (#[trigger] all[i]).text != (
    #[trigger] all[j]).text by {
        let a = all[i].attempt as int;
        let b = all[j].attempt as int;
        assert(is_new(source, attempts, b));
        assert(attempts[a].text != attempts[b].text);
    }
}

/// Where every attempt gives one and the same text, and that text is not
/// the source, exactly one mutant is accepted: that of the first attempt.
pub proof fn lemma_accepted_once(
    source: Seq<u8>,
    fnm: Seq<char>,
    attempts: Seq<Attempt>,
    text: Seq<u8>,
)
    requires
        attempts.len() > 0,
        text != source,
        forall|k: int| 0 <= k < attempts.len() ==> (#[trigger] attempts[k]).text == text,
    ensures
        accepted(source, fnm, attempts).len() == 1,
        accepted(source, fnm, attempts)[0].attempt == 0,
        accepted(source, fnm, attempts)[0].text == text,
    decreases attempts.len(),
{
    let front = attempts.drop_last();
    if front.len() > 0 {
        assert forall|k: int| 0 <= k < front.len() implies (#[trigger] front[k]).text == text by {
            assert(front[k] == attempts[k]);
        }
        lemma_accepted_once(source, fnm, front, text);
        assert(attempts[0].text == attempts[attempts.len() - 1].text);
    } else {
        assert(accepted(source, fnm, front) =~= Seq::<MutantView>::empty());
    }
}

} // verus!
