//! The mutation operators: where each applies, and what it makes of the
//! source there.

use crate::ast::{all_with, edits_of, first_with, nodes_of, patch_at, Child, Role, SolAST};
use crate::random::{after_shuffle, chosen, pick_flag, pick_index, shuffle};
use crate::text::{
    append_bytes, commented, lemma_rewritten_pair, rewritten, same_bytes, same_text, spliced,
};
use rand_pcg::Pcg64;
use vstd::prelude::*;
use vstd::string::StringSliceAdditionalSpecFns;

verus! {

/// Why no mutant was produced.
#[derive(Clone, Copy, Debug, PartialEq, Eq, Structural)]
pub enum MutationError {
    /// The name is that of no operator.
    UnknownOperator,
    /// The operator has no rewriting rule.
    UnsupportedOperator,
    /// The operator was handed a choice that it does not offer at the node.
    InvalidChoice,
    /// An operator applies at a node whose parts or spans do not allow the
    /// rewriting.
    MalformedNode,
}

/// The kinds of mutation.
#[derive(Clone, Copy, Debug, PartialEq, Eq, Hash, Structural)]
pub enum MutationType {
    BinaryOpMutation,
    RequireMutation,
    AssignmentMutation,
    DeleteExpressionMutation,
    FunctionCallMutation,
    IfStatementMutation,
    SwapArgumentsFunctionMutation,
    SwapArgumentsOperatorMutation,
    SwapLinesMutation,
    UnaryOperatorMutation,
}

/// The operator that goes by `name`, if there is one.
pub open spec fn named(name: Seq<char>) -> Option<MutationType> {
    if name == "BinaryOpMutation"@ {
        Some(MutationType::BinaryOpMutation)
    } else if name == "RequireMutation"@ {
        Some(MutationType::RequireMutation)
    } else if name == "AssignmentMutation"@ {
        Some(MutationType::AssignmentMutation)
    } else if name == "DeleteExpressionMutation"@ {
        Some(MutationType::DeleteExpressionMutation)
    } else if name == "FunctionCallMutation"@ {
        Some(MutationType::FunctionCallMutation)
    } else if name == "IfStatementMutation"@ {
        Some(MutationType::IfStatementMutation)
    } else if name == "SwapArgumentsFunctionMutation"@ {
        Some(MutationType::SwapArgumentsFunctionMutation)
    } else if name == "SwapArgumentsOperatorMutation"@ {
        Some(MutationType::SwapArgumentsOperatorMutation)
    } else if name == "SwapLinesMutation"@ {
        Some(MutationType::SwapLinesMutation)
    } else if name == "UnaryOperatorMutation"@ {
        Some(MutationType::UnaryOperatorMutation)
    } else {
        None
    }
}

/// The node is of the syntactic category `kind`.
pub open spec fn kind_is(node: &SolAST, kind: Seq<char>) -> bool {
    node.node_type matches Some(k) && k@ == kind
}

/// The node is a call of the function named `callee`.
pub open spec fn calls(node: &SolAST, callee: Seq<char>) -> bool {
    &&& kind_is(node, "FunctionCall"@)
    &&& node.part(Role::Expression) matches Some(called)
    &&& called.name matches Some(n)
    &&& n@ == callee
}

/// The operator token is one whose operands cannot change places without
/// changing the result.
pub open spec fn non_commutative(token: Seq<char>) -> bool {
    ||| token == "-"@
    ||| token == "/"@
    ||| token == "%"@
    ||| token == "**"@
    ||| token == ">"@
    ||| token == "<"@
    ||| token == ">="@
    ||| token == "<="@
    ||| token == "<<"@
    ||| token == ">>"@
}

/// Whether the node is of the syntactic category `kind`.
pub fn has_kind(node: &SolAST, kind: &str) -> (b: bool)
    ensures
        b == kind_is(node, kind@),
{
    match &node.node_type {
        Some(k) => same_text(k.as_str(), kind),
        None => false,
    }
}

/// Whether the node is a call of the function named `callee`.
pub fn is_call_of(node: &SolAST, callee: &str) -> (b: bool)
    ensures
        b == calls(node, callee@),
{
    if !has_kind(node, "FunctionCall") {
        return false;
    }
    match node.expression() {
        Some(called) => match &called.name {
            Some(n) => same_text(n.as_str(), callee),
            None => false,
        },
        None => false,
    }
}

/// Whether the operands of `token` cannot change places.
pub fn is_non_commutative(token: &str) -> (b: bool)
    ensures
        b == non_commutative(token@),
{
    same_text(token, "-") || same_text(token, "/") || same_text(token, "%") || same_text(
        token,
        "**",
    ) || same_text(token, ">") || same_text(token, "<") || same_text(token, ">=") || same_text(
        token,
        "<=",
    ) || same_text(token, "<<") || same_text(token, ">>")
}

impl MutationType {
    /// The operator's name.
    pub open spec fn label(self) -> Seq<char> {
        match self {
            MutationType::BinaryOpMutation => "BinaryOpMutation"@,
            MutationType::RequireMutation => "RequireMutation"@,
            MutationType::AssignmentMutation => "AssignmentMutation"@,
            MutationType::DeleteExpressionMutation => "DeleteExpressionMutation"@,
            MutationType::FunctionCallMutation => "FunctionCallMutation"@,
            MutationType::IfStatementMutation => "IfStatementMutation"@,
            MutationType::SwapArgumentsFunctionMutation => "SwapArgumentsFunctionMutation"@,
            MutationType::SwapArgumentsOperatorMutation => "SwapArgumentsOperatorMutation"@,
            MutationType::SwapLinesMutation => "SwapLinesMutation"@,
            MutationType::UnaryOperatorMutation => "UnaryOperatorMutation"@,
        }
    }

    /// The number that stands for the operator.
    pub open spec fn code(self) -> u8 {
        match self {
            MutationType::BinaryOpMutation => 0,
            MutationType::RequireMutation => 1,
            MutationType::AssignmentMutation => 2,
            MutationType::DeleteExpressionMutation => 3,
            MutationType::FunctionCallMutation => 4,
            MutationType::IfStatementMutation => 5,
            MutationType::SwapArgumentsFunctionMutation => 6,
            MutationType::SwapArgumentsOperatorMutation => 7,
            MutationType::SwapLinesMutation => 8,
            MutationType::UnaryOperatorMutation => 9,
        }
    }

    /// The operator that a number stands for; the last operator for a number
    /// that stands for none.
    pub open spec fn of_code(c: u8) -> MutationType {
        if c == 0 {
            MutationType::BinaryOpMutation
        } else if c == 1 {
            MutationType::RequireMutation
        } else if c == 2 {
            MutationType::AssignmentMutation
        } else if c == 3 {
            MutationType::DeleteExpressionMutation
        } else if c == 4 {
            MutationType::FunctionCallMutation
        } else if c == 5 {
            MutationType::IfStatementMutation
        } else if c == 6 {
            MutationType::SwapArgumentsFunctionMutation
        } else if c == 7 {
            MutationType::SwapArgumentsOperatorMutation
        } else if c == 8 {
            MutationType::SwapLinesMutation
        } else {
            MutationType::UnaryOperatorMutation
        }
    }

    /// Where the operator applies.
    pub open spec fn qualifies(self, node: &SolAST) -> bool {
        match self {
            MutationType::BinaryOpMutation => kind_is(node, "BinaryOperation"@),
            MutationType::RequireMutation => calls(node, "require"@) && node.parts(
                Role::Argument,
            ).len() > 0,
            MutationType::AssignmentMutation => kind_is(node, "Assignment"@),
            MutationType::DeleteExpressionMutation => kind_is(node, "ExpressionStatement"@),
            MutationType::FunctionCallMutation => kind_is(node, "FunctionCall"@) && node.parts(
                Role::Argument,
            ).len() > 0,
            MutationType::IfStatementMutation => kind_is(node, "IfStatement"@),
            MutationType::SwapArgumentsFunctionMutation => kind_is(node, "FunctionCall"@)
                && node.parts(Role::Argument).len() > 1,
            MutationType::SwapArgumentsOperatorMutation => {
                &&& kind_is(node, "BinaryOperation"@)
                &&& node.operator matches Some(token)
                &&& non_commutative(token@)
            },
            MutationType::SwapLinesMutation => kind_is(node, "Block"@) && node.parts(
                Role::Statement,
            ).len() > 1,
            MutationType::UnaryOperatorMutation => kind_is(node, "UnaryOperation"@),
        }
    }

    /// The operator that goes by the name `s`.
    pub fn from_str(s: &str) -> (r: Result<MutationType, MutationError>)
        ensures
            r == match named(s@) {
                Some(m) => Ok::<MutationType, MutationError>(m),
                None => Err(MutationError::UnknownOperator),
            },
    {
        if same_text(s, "BinaryOpMutation") {
            Ok(MutationType::BinaryOpMutation)
        } else if same_text(s, "RequireMutation") {
            Ok(MutationType::RequireMutation)
        } else if same_text(s, "AssignmentMutation") {
            Ok(MutationType::AssignmentMutation)
        } else if same_text(s, "DeleteExpressionMutation") {
            Ok(MutationType::DeleteExpressionMutation)
        } else if same_text(s, "FunctionCallMutation") {
            Ok(MutationType::FunctionCallMutation)
        } else if same_text(s, "IfStatementMutation") {
            Ok(MutationType::IfStatementMutation)
        } else if same_text(s, "SwapArgumentsFunctionMutation") {
            Ok(MutationType::SwapArgumentsFunctionMutation)
        } else if same_text(s, "SwapArgumentsOperatorMutation") {
            Ok(MutationType::SwapArgumentsOperatorMutation)
        } else if same_text(s, "SwapLinesMutation") {
            Ok(MutationType::SwapLinesMutation)
        } else if same_text(s, "UnaryOperatorMutation") {
            Ok(MutationType::UnaryOperatorMutation)
        } else {
            Err(MutationError::UnknownOperator)
        }
    }

    /// Whether the operator has a rewriting rule.
    pub fn is_supported(&self) -> (b: bool)
        ensures
            b == self.has_rule(),
    {
        match self {
            MutationType::AssignmentMutation => false,
            _ => true,
        }
    }

    /// The number that stands for the operator.
    pub fn to_code(&self) -> (c: u8)
        ensures
            c == self.code(),
    {
        match self {
            MutationType::BinaryOpMutation => 0,
            MutationType::RequireMutation => 1,
            MutationType::AssignmentMutation => 2,
            MutationType::DeleteExpressionMutation => 3,
            MutationType::FunctionCallMutation => 4,
            MutationType::IfStatementMutation => 5,
            MutationType::SwapArgumentsFunctionMutation => 6,
            MutationType::SwapArgumentsOperatorMutation => 7,
            MutationType::SwapLinesMutation => 8,
            MutationType::UnaryOperatorMutation => 9,
        }
    }

    /// The operator that the number stands for; the last operator for a
    /// number that stands for none.
    pub fn from_code(c: u8) -> (m: MutationType)
        ensures
            m == MutationType::of_code(c),
            forall|k: MutationType| k.code() == c ==> m == k,
    {
        if c == 0 {
            MutationType::BinaryOpMutation
        } else if c == 1 {
            MutationType::RequireMutation
        } else if c == 2 {
            MutationType::AssignmentMutation
        } else if c == 3 {
            MutationType::DeleteExpressionMutation
        } else if c == 4 {
            MutationType::FunctionCallMutation
        } else if c == 5 {
            MutationType::IfStatementMutation
        } else if c == 6 {
            MutationType::SwapArgumentsFunctionMutation
        } else if c == 7 {
            MutationType::SwapArgumentsOperatorMutation
        } else if c == 8 {
            MutationType::SwapLinesMutation
        } else {
            MutationType::UnaryOperatorMutation
        }
    }

    /// The operator's name.
    pub fn name(&self) -> (n: &'static str)
        ensures
            n@ == self.label(),
    {
        match self {
            MutationType::BinaryOpMutation => "BinaryOpMutation",
            MutationType::RequireMutation => "RequireMutation",
            MutationType::AssignmentMutation => "AssignmentMutation",
            MutationType::DeleteExpressionMutation => "DeleteExpressionMutation",
            MutationType::FunctionCallMutation => "FunctionCallMutation",
            MutationType::IfStatementMutation => "IfStatementMutation",
            MutationType::SwapArgumentsFunctionMutation => "SwapArgumentsFunctionMutation",
            MutationType::SwapArgumentsOperatorMutation => "SwapArgumentsOperatorMutation",
            MutationType::SwapLinesMutation => "SwapLinesMutation",
            MutationType::UnaryOperatorMutation => "UnaryOperatorMutation",
        }
    }
}

/// What a draw settles where an operator has more than one outcome at a
/// node.
#[derive(Clone, Copy, Debug, PartialEq, Eq, Structural)]
pub enum Choice {
    /// The operator has one outcome there.
    Only,
    /// The outcome with this index: a token of the operator's list, or an
    /// argument of the call.
    Index(usize),
    /// A condition gives way to this boolean literal.
    Literal(bool),
    /// A condition gives way to its negation.
    Negation,
}

impl Choice {
    /// The index that the choice names, 0 where it names none.
    pub open spec fn index(self) -> int {
        match self {
            Choice::Index(i) => i as int,
            _ => 0,
        }
    }
}

/// The tokens that a binary operator gives way to, each between two blanks.
pub open spec fn binary_token(i: int) -> Seq<u8> {
    if i == 0 {
        " + ".spec_bytes()
    } else if i == 1 {
        " - ".spec_bytes()
    } else if i == 2 {
        " * ".spec_bytes()
    } else if i == 3 {
        " / ".spec_bytes()
    } else if i == 4 {
        " % ".spec_bytes()
    } else {
        " ** ".spec_bytes()
    }
}

/// The tokens that a unary operator in front of its operand gives way to.
pub open spec fn prefix_token(i: int) -> Seq<u8> {
    if i == 0 {
        "++".spec_bytes()
    } else if i == 1 {
        "--".spec_bytes()
    } else {
        "~".spec_bytes()
    }
}

/// The tokens that a unary operator behind its operand gives way to.
pub open spec fn suffix_token(i: int) -> Seq<u8> {
    if i == 0 {
        "++".spec_bytes()
    } else {
        "--".spec_bytes()
    }
}

/// A boolean literal as source text.
pub open spec fn literal_text(value: bool) -> Seq<u8> {
    if value {
        "true".spec_bytes()
    } else {
        "false".spec_bytes()
    }
}

/// The negation of an expression's text.
pub open spec fn negated(text: Seq<u8>) -> Seq<u8> {
    "!(".spec_bytes() + text + ")".spec_bytes()
}

/// The bytes of an operator token.
pub open spec fn token_bytes(token: &String) -> Seq<u8> {
    vstd::utf8::encode_utf8(token@)
}

/// Both nodes have their spans in a text of `len` bytes, and the spans share
/// no byte.
pub open spec fn swappable(a: &SolAST, b: &SolAST, len: int) -> bool {
    &&& a.spans(len)
    &&& b.spans(len)
    &&& (a.bounds.unwrap().1 <= b.bounds.unwrap().0 || b.bounds.unwrap().1 <= a.bounds.unwrap().0)
}

/// Where there are exactly two nodes, they can change places.
pub open spec fn pair_layout(nodes: Seq<SolAST>, len: int) -> bool {
    nodes.len() == 2 ==> swappable(&nodes[0], &nodes[1], len)
}

/// `source` with the texts of two nodes in each other's place.
pub open spec fn exchanged(source: Seq<u8>, a: &SolAST, b: &SolAST) -> Seq<u8> {
    rewritten(source, seq![patch_at(a, b.text_in(source)), patch_at(b, a.text_in(source))])
}

/// Where there are exactly two nodes, `source` with their texts in each
/// other's place; else `source` as it is.
pub open spec fn pair_exchanged(source: Seq<u8>, nodes: Seq<SolAST>) -> Seq<u8> {
    if nodes.len() == 2 {
        exchanged(source, &nodes[0], &nodes[1])
    } else {
        source
    }
}

/// The node's text starts with its operator token.
pub open spec fn prefixed(node: &SolAST, source: Seq<u8>) -> bool {
    source.subrange(
        node.bounds.unwrap().0 as int,
        node.bounds.unwrap().0 + token_bytes(&node.operator.unwrap()).len(),
    ) == token_bytes(&node.operator.unwrap())
}

impl MutationType {
    /// The node has the parts and the spans that the operator's rewriting
    /// works on, in a source text of `len` bytes.
    pub open spec fn layout(self, node: &SolAST, len: int) -> bool {
        match self {
            MutationType::BinaryOpMutation => {
                &&& node.part(Role::LeftExpression) matches Some(left)
                &&& node.part(Role::RightExpression) matches Some(right)
                &&& left.bounds matches Some(l)
                &&& right.bounds matches Some(r)
                &&& l.1 <= r.0 <= len
            },
            MutationType::RequireMutation => node.parts(Role::Argument).len() > 0 && node.parts(
                Role::Argument,
            )[0].spans(len),
            MutationType::AssignmentMutation => true,
            MutationType::DeleteExpressionMutation => node.spans(len),
            MutationType::FunctionCallMutation => node.spans(len) && forall|i: int|
                0 <= i < node.parts(Role::Argument).len() ==> (#[trigger] node.parts(
                    Role::Argument,
                )[i]).spans(len),
            MutationType::IfStatementMutation => {
                &&& node.part(Role::Condition) matches Some(condition)
                &&& condition.spans(len)
            },
            MutationType::SwapArgumentsFunctionMutation => pair_layout(
                node.parts(Role::Argument),
                len,
            ),
            MutationType::SwapArgumentsOperatorMutation => {
                &&& node.part(Role::LeftExpression) matches Some(left)
                &&& node.part(Role::RightExpression) matches Some(right)
                &&& swappable(&left, &right, len)
            },
            MutationType::SwapLinesMutation => pair_layout(node.parts(Role::Statement), len),
            MutationType::UnaryOperatorMutation => {
                &&& node.spans(len)
                &&& node.operator matches Some(token)
                &&& token_bytes(&token).len() <= node.bounds.unwrap().1 - node.bounds.unwrap().0
            },
        }
    }

    /// The operator applies at the node and can rewrite a source text of
    /// `len` bytes there.
    pub open spec fn ready(self, node: &SolAST, len: int) -> bool {
        self.qualifies(node) && self.layout(node, len)
    }

    /// The operator has a rewriting rule.
    pub open spec fn has_rule(self) -> bool {
        self != MutationType::AssignmentMutation
    }

    /// The choices that the operator offers at the node.
    pub open spec fn offers(self, node: &SolAST, source: Seq<u8>, choice: Choice) -> bool {
        match self {
            MutationType::BinaryOpMutation => choice is Index && choice.index() < 6,
            MutationType::FunctionCallMutation => choice is Index && choice.index() < node.parts(
                Role::Argument,
            ).len(),
            MutationType::IfStatementMutation => choice is Literal || choice is Negation,
            MutationType::UnaryOperatorMutation => choice is Index && choice.index() < (if prefixed(
                node,
                source,
            ) {
                3int
            } else {
                2int
            }),
            MutationType::AssignmentMutation => false,
            _ => choice is Only,
        }
    }

    /// The mutant: the whole source text after the operator has rewritten it
    /// at the node, with the outcome that `choice` names.
    pub open spec fn mutant(self, node: &SolAST, source: Seq<u8>, choice: Choice) -> Seq<u8> {
        match self {
            MutationType::BinaryOpMutation => spliced(
                source,
                binary_token(choice.index()),
                node.part(Role::LeftExpression).unwrap().bounds.unwrap().1 as int,
                node.part(Role::RightExpression).unwrap().bounds.unwrap().0 as int,
            ),
            MutationType::RequireMutation => {
                let argument = node.parts(Role::Argument)[0];
                argument.replaced(source, negated(argument.text_in(source)))
            },
            MutationType::AssignmentMutation => source,
            MutationType::DeleteExpressionMutation => node.replaced(
                source,
                commented(node.text_in(source)),
            ),
            MutationType::FunctionCallMutation => node.replaced(
                source,
                node.parts(Role::Argument)[choice.index()].text_in(source),
            ),
            MutationType::IfStatementMutation => {
                let condition = node.part(Role::Condition).unwrap();
                match choice {
                    Choice::Literal(value) => condition.replaced(source, literal_text(value)),
                    _ => condition.replaced(source, negated(condition.text_in(source))),
                }
            },
            MutationType::SwapArgumentsFunctionMutation => pair_exchanged(
                source,
                node.parts(Role::Argument),
            ),
            MutationType::SwapArgumentsOperatorMutation => exchanged(
                source,
                &node.part(Role::LeftExpression).unwrap(),
                &node.part(Role::RightExpression).unwrap(),
            ),
            MutationType::SwapLinesMutation => pair_exchanged(source, node.parts(Role::Statement)),
            MutationType::UnaryOperatorMutation => {
                let start = node.bounds.unwrap().0 as int;
                let end = node.bounds.unwrap().1 as int;
                let width = token_bytes(&node.operator.unwrap()).len() as int;
                if prefixed(node, source) {
                    spliced(source, prefix_token(choice.index()), start, start + width)
                } else {
                    spliced(source, suffix_token(choice.index()), end - width, end)
                }
            },
        }
    }

    /// The outcome that the draws settle, and the generator as they leave
    /// it, where the operator rewrites `source` at the node with the
    /// generator `rand`. An operator with a list of tokens draws one of
    /// them; a call gives way to an argument that is drawn; for an `if` a
    /// flag is drawn, and where it is `true` a second flag, which then is
    /// the literal; where arguments or statements change places, they are
    /// shuffled first. The other operators draw nothing.
    pub open spec fn drawn_choice(self, node: &SolAST, source: Seq<u8>, rand: Pcg64) -> (
        Choice,
        Pcg64,
    ) {
        match self {
            MutationType::BinaryOpMutation => (
                Choice::Index(chosen(rand, 6).0 as usize),
                chosen(rand, 6).1,
            ),
            MutationType::FunctionCallMutation => {
                let count = node.parts(Role::Argument).len();
                (Choice::Index(chosen(rand, count).0 as usize), chosen(rand, count).1)
            },
            MutationType::IfStatementMutation => {
                let first = chosen(rand, 2);
                if first.0 == 0 {
                    let second = chosen(first.1, 2);
                    (Choice::Literal(second.0 == 0), second.1)
                } else {
                    (Choice::Negation, first.1)
                }
            },
            MutationType::UnaryOperatorMutation => {
                let count: nat = if prefixed(node, source) {
                    3
                } else {
                    2
                };
                (Choice::Index(chosen(rand, count).0 as usize), chosen(rand, count).1)
            },
            MutationType::SwapArgumentsFunctionMutation => (
                Choice::Only,
                after_shuffle(rand, node.parts(Role::Argument).len()),
            ),
            MutationType::SwapLinesMutation => (
                Choice::Only,
                after_shuffle(rand, node.parts(Role::Statement).len()),
            ),
            _ => (Choice::Only, rand),
        }
    }

    /// The mutant that the operator makes of `source` at the node with the
    /// generator `rand`.
    pub open spec fn drawn_mutant(self, node: &SolAST, source: Seq<u8>, rand: Pcg64) -> Seq<u8> {
        self.mutant(node, source, self.drawn_choice(node, source, rand).0)
    }

    /// `text` is a mutant that the operator can make of `source` at the node.
    pub open spec fn can_yield(self, node: &SolAST, source: Seq<u8>, text: Seq<u8>) -> bool {
        exists|choice: Choice| #[trigger]
            self.offers(node, source, choice) && text == self.mutant(node, source, choice)
    }
}

/// What every kind of mutation offers: a test for the nodes at which it
/// applies, and the rewriting of the source at such a node.
pub trait Mutation {
    /// Where the mutation applies.
    spec fn applies(&self, node: &SolAST) -> bool;

    /// The mutation applies at the node and can rewrite a source text of
    /// `len` bytes there.
    spec fn prepared(&self, node: &SolAST, len: int) -> bool;

    /// The mutation has a rewriting rule.
    spec fn supported(&self) -> bool;

    /// `text` is a mutant that the mutation can make of `source` at the node.
    spec fn may_yield(&self, node: &SolAST, source: Seq<u8>, text: Seq<u8>) -> bool;

    /// The mutation draws from the random stream when it rewrites.
    spec fn draws(&self) -> bool;

    /// The mutant that the mutation makes of `source` at the node with the
    /// generator `rand`, and the generator as the mutation leaves it.
    spec fn drawn(&self, node: &SolAST, source: Seq<u8>, rand: Pcg64) -> (Seq<u8>, Pcg64);

    /// Whether the mutation applies at `node`.
    fn is_mutation_point(&self, node: &SolAST) -> (b: bool)
        ensures
            b == self.applies(node),
    ;

    /// One mutant of `source` at `node`: the whole rewritten text. Where the
    /// mutation has several outcomes at the node, draws from `rand` settle
    /// which one it is. A mutation that makes no draw leaves `rand` as it
    /// was. A mutation without a rewriting rule reports that it is not
    /// supported.
    fn mutate_randomly(&self, node: &SolAST, source: &[u8], rand: &mut Pcg64) -> (r: Result<
        Vec<u8>,
        MutationError,
    >)
        requires
            self.prepared(node, source@.len() as int),
        ensures
            r is Err <==> !self.supported(),
            r matches Err(e) ==> e == MutationError::UnsupportedOperator,
            r matches Ok(text) ==> self.may_yield(node, source@, text@),
            r matches Ok(text) ==> text@ == self.drawn(node, source@, *old(rand)).0
                && *final(rand) == self.drawn(node, source@, *old(rand)).1,
            !self.draws() ==> *final(rand) == *old(rand),
    ;
}

/// The text that stands for a binary operator token, between two blanks.
fn binary_text(i: usize) -> (t: &'static str)
    ensures
        t.spec_bytes() == binary_token(i as int),
{
    if i == 0 {
        " + "
    } else if i == 1 {
        " - "
    } else if i == 2 {
        " * "
    } else if i == 3 {
        " / "
    } else if i == 4 {
        " % "
    } else {
        " ** "
    }
}

/// The text of a unary operator token: of those that stand in front where
/// `prefix` holds, else of those that stand behind.
fn unary_text(prefix: bool, i: usize) -> (t: &'static str)
    ensures
        t.spec_bytes() == if prefix {
            prefix_token(i as int)
        } else {
            suffix_token(i as int)
        },
{
    if i == 0 {
        "++"
    } else if i == 1 || !prefix {
        "--"
    } else {
        "~"
    }
}

/// The negation of an expression's text.
fn negate(text: &[u8]) -> (out: Vec<u8>)
    ensures
        out@ == negated(text@),
{
    let mut out: Vec<u8> = Vec::new();
    append_bytes(&mut out, "!(".as_bytes());
    append_bytes(&mut out, text);
    append_bytes(&mut out, ")".as_bytes());
    out
}

/// A boolean literal as source text.
fn literal(value: bool) -> (t: &'static str)
    ensures
        t.spec_bytes() == literal_text(value),
{
    if value {
        "true"
    } else {
        "false"
    }
}

/// Whether the node's span is known and lies in a text of `len` bytes.
fn within(node: &SolAST, len: usize) -> (b: bool)
    ensures
        b == node.spans(len as int),
{
    match node.bounds {
        Some(b) => b.0 <= b.1 && b.1 <= len,
        None => false,
    }
}

/// Whether every node's span is known and lies in a text of `len` bytes.
fn all_within(nodes: &Vec<&SolAST>, len: usize) -> (b: bool)
    ensures
        b == forall|i: int| 0 <= i < nodes@.len() ==> (#[trigger] nodes_of(nodes@)[i]).spans(len as int),
{
    let mut i: usize = 0;
    while i < nodes.len()
        invariant
            i <= nodes.len(),
            forall|j: int| 0 <= j < i ==> (#[trigger] nodes_of(nodes@)[j]).spans(len as int),
        decreases nodes.len() - i,
    {
        if !within(nodes[i], len) {
            assert(!nodes_of(nodes@)[i as int].spans(len as int));
            return false;
        }
        i += 1;
    }
    true
}

/// Whether two nodes can change places in a text of `len` bytes.
fn can_swap(a: &SolAST, b: &SolAST, len: usize) -> (ok: bool)
    ensures
        ok == swappable(a, b, len as int),
{
    if !within(a, len) || !within(b, len) {
        return false;
    }
    let x: (usize, usize) = a.get_bounds();
    let y: (usize, usize) = b.get_bounds();
    x.1 <= y.0 || y.1 <= x.0
}

/// Whether the nodes, where there are exactly two, can change places.
fn pair_can_swap(nodes: &Vec<&SolAST>, len: usize) -> (ok: bool)
    ensures
        ok == pair_layout(nodes_of(nodes@), len as int),
{
    if nodes.len() == 2 {
        can_swap(nodes[0], nodes[1], len)
    } else {
        true
    }
}

/// The whole of `source` with the texts of `a` and `b` in each other's
/// place.
fn swap_texts(node: &SolAST, source: &[u8], a: &SolAST, b: &SolAST) -> (out: Vec<u8>)
    requires
        swappable(a, b, source@.len() as int),
    ensures
        out@ == exchanged(source@, a, b),
{
    let text_a = a.get_text(source);
    let text_b = b.get_text(source);
    let replacements: Vec<(&SolAST, Vec<u8>)> = vec![(a, text_b), (b, text_a)];
    proof {
        assert(edits_of(replacements@) =~= seq![
            patch_at(a, b.text_in(source@)),
            patch_at(b, a.text_in(source@)),
        ]);
    }
    node.replace_multiple(source, replacements)
}

/// The whole of `source` with the texts of the nodes in each other's place
/// where there are exactly two of them; else `source` as it is.
fn swap_pair(node: &SolAST, source: &[u8], nodes: &Vec<&SolAST>) -> (out: Vec<u8>)
    requires
        pair_layout(nodes_of(nodes@), source@.len() as int),
    ensures
        out@ == pair_exchanged(source@, nodes_of(nodes@)),
{
    if nodes.len() == 2 {
        swap_texts(node, source, nodes[0], nodes[1])
    } else {
        let mut out: Vec<u8> = Vec::new();
        append_bytes(&mut out, source);
        out
    }
}

/// Two nodes that can change places give the same text whichever of them
/// is named first.
pub proof fn lemma_exchange_symmetric(source: Seq<u8>, a: &SolAST, b: &SolAST)
    requires
        swappable(a, b, source.len() as int),
    ensures
        exchanged(source, a, b) == exchanged(source, b, a),
{
    let pa = patch_at(a, b.text_in(source));
    let pb = patch_at(b, a.text_in(source));
    if pa.end <= pb.start {
        if pa.start < pb.end {
            lemma_rewritten_pair(source, pa, pb);
        } else {
            assert(a.text_in(source) =~= b.text_in(source));
        }
    } else {
        if pb.start < pa.end {
            lemma_rewritten_pair(source, pb, pa);
        } else {
            assert(a.text_in(source) =~= b.text_in(source));
        }
    }
}

/// Two elements in a new order are the same two elements, in the old order
/// or the other one.
proof fn lemma_pair_reordered<T>(a: Seq<T>, b: Seq<T>)
    requires
        a.to_multiset() == b.to_multiset(),
    ensures
        a.len() == b.len(),
        a.len() == 2 ==> (b[0] == a[0] && b[1] == a[1]) || (b[0] == a[1] && b[1] == a[0]),
{
    vstd::seq_lib::to_multiset_len(a);
    vstd::seq_lib::to_multiset_len(b);
    if a.len() == 2 {
        assert(b.contains(b[0]) && b.contains(b[1]));
        assert(a.contains(a[0]) && a.contains(a[1]));
        vstd::seq_lib::to_multiset_contains(a, a[0]);
        vstd::seq_lib::to_multiset_contains(a, a[1]);
        vstd::seq_lib::to_multiset_contains(a, b[0]);
        vstd::seq_lib::to_multiset_contains(a, b[1]);
        vstd::seq_lib::to_multiset_contains(b, a[0]);
        vstd::seq_lib::to_multiset_contains(b, a[1]);
        vstd::seq_lib::to_multiset_contains(b, b[0]);
        vstd::seq_lib::to_multiset_contains(b, b[1]);
        assert(a.contains(b[0]) && a.contains(b[1]));
        assert(b.contains(a[0]) && b.contains(a[1]));
    }
}

impl MutationType {
    /// Whether the operator applies at the node and can rewrite a source
    /// text of `len` bytes there.
    pub fn can_mutate(&self, node: &SolAST, len: usize) -> (b: bool)
        ensures
            b == self.ready(node, len as int),
    {
        if !self.is_mutation_point(node) {
            return false;
        }
        match self {
            MutationType::BinaryOpMutation => match node.left_expression() {
                Some(left) => match node.right_expression() {
                    Some(right) => match left.bounds {
                        Some(l) => match right.bounds {
                            Some(r) => l.1 <= r.0 && r.0 <= len,
                            None => false,
                        },
                        None => false,
                    },
                    None => false,
                },
                None => false,
            },
            MutationType::RequireMutation => {
                let arguments = node.arguments();
                assert(nodes_of(arguments@)[0] == *arguments@[0]);
                within(arguments[0], len)
            },
            MutationType::AssignmentMutation => true,
            MutationType::DeleteExpressionMutation => within(node, len),
            MutationType::FunctionCallMutation => {
                let arguments = node.arguments();
                within(node, len) && all_within(&arguments, len)
            },
            MutationType::IfStatementMutation => match node.condition() {
                Some(condition) => within(condition, len),
                None => false,
            },
            MutationType::SwapArgumentsFunctionMutation => {
                let arguments = node.arguments();
                pair_can_swap(&arguments, len)
            },
            MutationType::SwapArgumentsOperatorMutation => match node.left_expression() {
                Some(left) => match node.right_expression() {
                    Some(right) => can_swap(left, right, len),
                    None => false,
                },
                None => false,
            },
            MutationType::SwapLinesMutation => {
                let statements = node.statements();
                pair_can_swap(&statements, len)
            },
            MutationType::UnaryOperatorMutation => match &node.operator {
                Some(token) => match node.bounds {
                    Some(b) => b.0 <= b.1 && b.1 <= len && token.as_str().as_bytes().len() <= b.1
                        - b.0,
                    None => false,
                },
                None => false,
            },
        }
    }

    /// The mutant of `source` at `node` with the outcome that `choice`
    /// names: the whole rewritten text.
    pub fn mutate_with(&self, node: &SolAST, source: &[u8], choice: Choice) -> (r: Result<
        Vec<u8>,
        MutationError,
    >)
        requires
            self.ready(node, source@.len() as int),
        ensures
            !self.has_rule() ==> r == Err::<Vec<u8>, MutationError>(
                MutationError::UnsupportedOperator,
            ),
            self.has_rule() && !self.offers(node, source@, choice) ==> r == Err::<
                Vec<u8>,
                MutationError,
            >(MutationError::InvalidChoice),
            self.has_rule() && self.offers(node, source@, choice) ==> (r matches Ok(text)
                && text@ == self.mutant(node, source@, choice)),
    {
        match self {
            MutationType::BinaryOpMutation => match choice {
                Choice::Index(i) => {
                    if i < 6 {
                        let left: (usize, usize) = node.left_expression().unwrap().get_bounds();
                        let right: (usize, usize) = node.right_expression().unwrap().get_bounds();
                        Ok(node.replace_part(source, binary_text(i).as_bytes(), left.1, right.0))
                    } else {
                        Err(MutationError::InvalidChoice)
                    }
                },
                _ => Err(MutationError::InvalidChoice),
            },
            MutationType::RequireMutation => match choice {
                Choice::Only => {
                    let arguments = node.arguments();
                    assert(nodes_of(arguments@)[0] == *arguments@[0]);
                    let argument = arguments[0];
                    let inner = argument.get_text(source);
                    let wrapped = negate(inner.as_slice());
                    Ok(argument.replace_in_source(source, wrapped.as_slice()))
                },
                _ => Err(MutationError::InvalidChoice),
            },
            MutationType::AssignmentMutation => Err(MutationError::UnsupportedOperator),
            MutationType::DeleteExpressionMutation => match choice {
                Choice::Only => Ok(node.comment_out(source)),
                _ => Err(MutationError::InvalidChoice),
            },
            MutationType::FunctionCallMutation => match choice {
                Choice::Index(i) => {
                    let arguments = node.arguments();
                    if i < arguments.len() {
                        assert(nodes_of(arguments@)[i as int] == *arguments@[i as int]);
                        let chosen = arguments[i].get_text(source);
                        Ok(node.replace_in_source(source, chosen.as_slice()))
                    } else {
                        Err(MutationError::InvalidChoice)
                    }
                },
                _ => Err(MutationError::InvalidChoice),
            },
            MutationType::IfStatementMutation => {
                let condition = node.condition().unwrap();
                match choice {
                    Choice::Literal(value) => Ok(
                        condition.replace_in_source(source, literal(value).as_bytes()),
                    ),
                    Choice::Negation => {
                        let inner = condition.get_text(source);
                        let wrapped = negate(inner.as_slice());
                        Ok(condition.replace_in_source(source, wrapped.as_slice()))
                    },
                    _ => Err(MutationError::InvalidChoice),
                }
            },
            MutationType::SwapArgumentsFunctionMutation => match choice {
                Choice::Only => {
                    let arguments = node.arguments();
                    Ok(swap_pair(node, source, &arguments))
                },
                _ => Err(MutationError::InvalidChoice),
            },
            MutationType::SwapArgumentsOperatorMutation => match choice {
                Choice::Only => {
                    let left = node.left_expression().unwrap();
                    let right = node.right_expression().unwrap();
                    Ok(swap_texts(node, source, left, right))
                },
                _ => Err(MutationError::InvalidChoice),
            },
            MutationType::SwapLinesMutation => match choice {
                Choice::Only => {
                    let statements = node.statements();
                    Ok(swap_pair(node, source, &statements))
                },
                _ => Err(MutationError::InvalidChoice),
            },
            MutationType::UnaryOperatorMutation => match choice {
                Choice::Index(i) => {
                    let prefix = starts_with_operator(node, source);
                    let bounds: (usize, usize) = node.get_bounds();
                    let width: usize = operator_width(node);
                    if prefix && i < 3 {
                        Ok(
                            node.replace_part(
                                source,
                                unary_text(true, i).as_bytes(),
                                bounds.0,
                                bounds.0 + width,
                            ),
                        )
                    } else if !prefix && i < 2 {
                        Ok(
                            node.replace_part(
                                source,
                                unary_text(false, i).as_bytes(),
                                bounds.1 - width,
                                bounds.1,
                            ),
                        )
                    } else {
                        Err(MutationError::InvalidChoice)
                    }
                },
                _ => Err(MutationError::InvalidChoice),
            },
        }
    }
}

/// The number of bytes of the node's operator token.
fn operator_width(node: &SolAST) -> (width: usize)
    requires
        node.operator is Some,
    ensures
        width == token_bytes(&node.operator.unwrap()).len(),
{
    match &node.operator {
        Some(token) => token.as_str().as_bytes().len(),
        None => 0,
    }
}

/// Whether the node's text starts with its operator token.
fn starts_with_operator(node: &SolAST, source: &[u8]) -> (prefix: bool)
    requires
        MutationType::UnaryOperatorMutation.layout(node, source@.len() as int),
    ensures
        prefix == prefixed(node, source@),
{
    let bounds: (usize, usize) = node.get_bounds();
    match &node.operator {
        Some(token) => {
            let bytes = token.as_str().as_bytes();
            same_bytes(
                vstd::slice::slice_subrange(source, bounds.0, bounds.0 + bytes.len()),
                bytes,
            )
        },
        None => false,
    }
}

impl Mutation for MutationType {
    open spec fn applies(&self, node: &SolAST) -> bool {
        self.qualifies(node)
    }

    open spec fn prepared(&self, node: &SolAST, len: int) -> bool {
        self.ready(node, len)
    }

    open spec fn supported(&self) -> bool {
        self.has_rule()
    }

    open spec fn may_yield(&self, node: &SolAST, source: Seq<u8>, text: Seq<u8>) -> bool {
        self.can_yield(node, source, text)
    }

    open spec fn drawn(&self, node: &SolAST, source: Seq<u8>, rand: Pcg64) -> (Seq<u8>, Pcg64) {
        (self.drawn_mutant(node, source, rand), self.drawn_choice(node, source, rand).1)
    }

    open spec fn draws(&self) -> bool {
        match self {
            MutationType::RequireMutation => false,
            MutationType::AssignmentMutation => false,
            MutationType::DeleteExpressionMutation => false,
            MutationType::SwapArgumentsOperatorMutation => false,
            _ => true,
        }
    }

    fn is_mutation_point(&self, node: &SolAST) -> (b: bool) {
        match self {
            MutationType::BinaryOpMutation => has_kind(node, "BinaryOperation"),
            MutationType::RequireMutation => is_call_of(node, "require") && node.arguments().len()
                > 0,
            MutationType::AssignmentMutation => has_kind(node, "Assignment"),
            MutationType::DeleteExpressionMutation => has_kind(node, "ExpressionStatement"),
            MutationType::FunctionCallMutation => has_kind(node, "FunctionCall")
                && node.arguments().len() > 0,
            MutationType::IfStatementMutation => has_kind(node, "IfStatement"),
            MutationType::SwapArgumentsFunctionMutation => has_kind(node, "FunctionCall")
                && node.arguments().len() > 1,
            MutationType::SwapArgumentsOperatorMutation => {
                if !has_kind(node, "BinaryOperation") {
                    false
                } else {
                    match &node.operator {
                        Some(token) => is_non_commutative(token.as_str()),
                        None => false,
                    }
                }
            },
            MutationType::SwapLinesMutation => has_kind(node, "Block") && node.statements().len()
                > 1,
            MutationType::UnaryOperatorMutation => has_kind(node, "UnaryOperation"),
        }
    }

    fn mutate_randomly(&self, node: &SolAST, source: &[u8], rand: &mut Pcg64) -> (r: Result<
        Vec<u8>,
        MutationError,
    >) {
        match self {
            MutationType::BinaryOpMutation => {
                let choice = Choice::Index(pick_index(6, rand).unwrap());
                assert(self.offers(node, source@, choice));
                self.mutate_with(node, source, choice)
            },
            MutationType::FunctionCallMutation => {
                let count: usize = node.arguments().len();
                let choice = Choice::Index(pick_index(count, rand).unwrap());
                assert(self.offers(node, source@, choice));
                self.mutate_with(node, source, choice)
            },
            MutationType::IfStatementMutation => {
                let choice = if pick_flag(rand) {
                    Choice::Literal(pick_flag(rand))
                } else {
                    Choice::Negation
                };
                assert(self.offers(node, source@, choice));
                self.mutate_with(node, source, choice)
            },
            MutationType::UnaryOperatorMutation => {
                let count: usize = if starts_with_operator(node, source) {
                    3
                } else {
                    2
                };
                let choice = Choice::Index(pick_index(count, rand).unwrap());
                assert(self.offers(node, source@, choice));
                self.mutate_with(node, source, choice)
            },
            MutationType::SwapArgumentsFunctionMutation => {
                let mut arguments = node.arguments();
                let text = shuffled_pair(node, source, &mut arguments, rand);
                assert(self.offers(node, source@, Choice::Only));
                Ok(text)
            },
            MutationType::SwapLinesMutation => {
                let mut statements = node.statements();
                let text = shuffled_pair(node, source, &mut statements, rand);
                assert(self.offers(node, source@, Choice::Only));
                Ok(text)
            },
            MutationType::AssignmentMutation => Err(MutationError::UnsupportedOperator),
            _ => {
                assert(self.offers(node, source@, Choice::Only));
                self.mutate_with(node, source, Choice::Only)
            },
        }
    }
}

/// Shuffles the nodes and then, where there are exactly two of them, puts
/// their texts in each other's place. Whatever order the shuffle leaves,
/// the text is the same.
fn shuffled_pair(node: &SolAST, source: &[u8], nodes: &mut Vec<&SolAST>, rand: &mut Pcg64) -> (out:
    Vec<u8>)
    requires
        pair_layout(nodes_of(old(nodes)@), source@.len() as int),
    ensures
        out@ == pair_exchanged(source@, nodes_of(old(nodes)@)),
        *final(rand) == after_shuffle(*old(rand), old(nodes)@.len()),
{
    shuffle(nodes, rand);
    proof {
        lemma_pair_reordered(old(nodes)@, nodes@);
        if nodes@.len() == 2 {
            let a = old(nodes)@[0];
            let b = old(nodes)@[1];
            assert(nodes_of(old(nodes)@)[0] == *a && nodes_of(old(nodes)@)[1] == *b);
            assert(nodes_of(nodes@)[0] == *nodes@[0] && nodes_of(nodes@)[1] == *nodes@[1]);
            lemma_exchange_symmetric(source@, a, b);
        }
    }
    swap_pair(node, source, nodes)
}

impl std::str::FromStr for MutationType {
    type Err = MutationError;

    /// The operator that goes by the name `s`; an unknown name is reported.
    fn from_str(s: &str) -> (r: Result<Self, Self::Err>)
        ensures
            r == match named(s@) {
                Some(m) => Ok::<MutationType, MutationError>(m),
                None => Err(MutationError::UnknownOperator),
            },
    {
        MutationType::from_str(s)
    }
}

/// The mutant of a call of `require` is the source with `!(` in front of
/// the first argument and `)` behind it. Every byte before the argument and
/// every byte behind it is left as it was.
pub proof fn lemma_require_mutant(node: &SolAST, source: Seq<u8>)
    requires
        MutationType::RequireMutation.ready(node, source.len() as int),
    ensures
        ({
            let argument = node.parts(Role::Argument)[0];
            let start = argument.bounds.unwrap().0 as int;
            let end = argument.bounds.unwrap().1 as int;
            let mutant = MutationType::RequireMutation.mutant(node, source, Choice::Only);
            &&& mutant == source.subrange(0, start) + "!(".spec_bytes() + source.subrange(
                start,
                end,
            ) + ")".spec_bytes() + source.subrange(end, source.len() as int)
            &&& mutant.subrange(0, start) == source.subrange(0, start)
            &&& mutant.subrange(mutant.len() - (source.len() - end), mutant.len() as int)
                == source.subrange(end, source.len() as int)
        }),
{
    let argument = node.parts(Role::Argument)[0];
    let start = argument.bounds.unwrap().0 as int;
    let end = argument.bounds.unwrap().1 as int;
    let mutant = MutationType::RequireMutation.mutant(node, source, Choice::Only);
    assert(mutant =~= source.subrange(0, start) + "!(".spec_bytes() + source.subrange(start, end)
        + ")".spec_bytes() + source.subrange(end, source.len() as int));
    assert(mutant.subrange(0, start) =~= source.subrange(0, start));
    assert(mutant.subrange(mutant.len() - (source.len() - end), mutant.len() as int)
        =~= source.subrange(end, source.len() as int));
}

/// The mutant of a binary operation whose operands change places: the text
/// of the right operand stands where the left one stood, the text of the
/// left operand where the right one stood, and what stood before, between
/// and behind the operands, the operator token among it, is left as it was.
pub proof fn lemma_swapped_operands(node: &SolAST, source: Seq<u8>)
    requires
        MutationType::SwapArgumentsOperatorMutation.ready(node, source.len() as int),
        node.part(Role::LeftExpression).unwrap().bounds.unwrap().1 <= node.part(
            Role::RightExpression,
        ).unwrap().bounds.unwrap().0,
        node.part(Role::LeftExpression).unwrap().bounds.unwrap().0 < node.part(
            Role::RightExpression,
        ).unwrap().bounds.unwrap().1,
    ensures
        ({
            let left = node.part(Role::LeftExpression).unwrap().bounds.unwrap();
            let right = node.part(Role::RightExpression).unwrap().bounds.unwrap();
            MutationType::SwapArgumentsOperatorMutation.mutant(node, source, Choice::Only)
                == source.subrange(0, left.0 as int) + source.subrange(
                right.0 as int,
                right.1 as int,
            ) + source.subrange(left.1 as int, right.0 as int) + source.subrange(
                left.0 as int,
                left.1 as int,
            ) + source.subrange(right.1 as int, source.len() as int)
        }),
{
    let left = node.part(Role::LeftExpression).unwrap();
    let right = node.part(Role::RightExpression).unwrap();
    lemma_rewritten_pair(
        source,
        patch_at(&left, right.text_in(source)),
        patch_at(&right, left.text_in(source)),
    );
}

/// The first part that plays a role is one of the parts.
proof fn lemma_part_is_child(children: Seq<Child>, role: Role)
    requires
        first_with(children, role) is Some,
    ensures
        exists|i: int|
            0 <= i < children.len() && (#[trigger] children[i]).role == role && children[i].node
                == first_with(children, role).unwrap(),
    decreases children.len(),
{
    if children[0].role != role {
        let rest = children.drop_first();
        lemma_part_is_child(rest, role);
        let i = choose|i: int|
            0 <= i < rest.len() && (#[trigger] rest[i]).role == role && rest[i].node == first_with(
                rest,
                role,
            ).unwrap();
        assert(children[i + 1] == rest[i]);
    }
}

/// `x` is one of the parts.
spec fn is_part(children: Seq<Child>, x: SolAST) -> bool {
    exists|i: int| 0 <= i < children.len() && (#[trigger] children[i]).node == x
}

/// `x` and `y` are two of the parts, `x` before `y`.
spec fn in_order(children: Seq<Child>, x: SolAST, y: SolAST) -> bool {
    exists|i: int, j: int|
        0 <= i < j < children.len() && (#[trigger] children[i]).node == x && (
        #[trigger] children[j]).node == y
}

/// Each of the parts that play a role is one of the parts, and two of them
/// stand among the parts in the order they have among themselves.
proof fn lemma_parts_are_children(children: Seq<Child>, role: Role)
    ensures
        forall|a: int|
            0 <= a < all_with(children, role).len() ==> is_part(
                children,
                #[trigger] all_with(children, role)[a],
            ),
        forall|a: int, b: int|
            0 <= a < b < all_with(children, role).len() ==> in_order(
                children,
                #[trigger] all_with(children, role)[a],
                #[trigger] all_with(children, role)[b],
            ),
    decreases children.len(),
{
    if children.len() > 0 {
        let front = children.drop_last();
        let last = children.len() - 1;
        lemma_parts_are_children(front, role);
        let earlier = all_with(front, role);
        let all = all_with(children, role);
        assert forall|a: int| 0 <= a < all.len() implies is_part(children, #[trigger] all[a]) by {
            if a < earlier.len() {
                assert(is_part(front, earlier[a]));
                let i = choose|i: int|
                    0 <= i < front.len() && (#[trigger] front[i]).node == earlier[a];
                assert(children[i] == front[i]);
            } else {
                assert(children[last].node == all[a]);
            }
        }
        assert forall|a: int, b: int| 0 <= a < b < all.len() implies in_order(
            children,
            #[trigger] all[a],
            #[trigger] all[b],
        ) by {
            if b < earlier.len() {
                assert(in_order(front, earlier[a], earlier[b]));
                let (i, j) = choose|i: int, j: int|
                    0 <= i < j < front.len() && (#[trigger] front[i]).node == earlier[a] && (
                    #[trigger] front[j]).node == earlier[b];
                assert(children[i] == front[i] && children[j] == front[j]);
            } else {
                assert(is_part(front, earlier[a]));
                let i = choose|i: int|
                    0 <= i < front.len() && (#[trigger] front[i]).node == earlier[a];
                assert(children[i] == front[i]);
                assert(children[last].node == all[b]);
            }
        }
    }
}

/// In a tree that fits the source text, the two operands of a binary
/// operation can change places where their spans are known: the spans of
/// two parts of one node share no byte.
pub proof fn lemma_operands_can_swap(node: &SolAST, len: int)
    requires
        node.well_formed(len),
        node.part(Role::LeftExpression) is Some,
        node.part(Role::RightExpression) is Some,
        node.part(Role::LeftExpression).unwrap().bounds is Some,
        node.part(Role::RightExpression).unwrap().bounds is Some,
    ensures
        swappable(
            &node.part(Role::LeftExpression).unwrap(),
            &node.part(Role::RightExpression).unwrap(),
            len,
        ),
{
    let children = node.children@;
    lemma_part_is_child(children, Role::LeftExpression);
    lemma_part_is_child(children, Role::RightExpression);
    let i = choose|i: int|
        0 <= i < children.len() && (#[trigger] children[i]).role == Role::LeftExpression
            && children[i].node == first_with(children, Role::LeftExpression).unwrap();
    let j = choose|j: int|
        0 <= j < children.len() && (#[trigger] children[j]).role == Role::RightExpression
            && children[j].node == first_with(children, Role::RightExpression).unwrap();
    assert(children[i].node.well_formed(len) && children[j].node.well_formed(len));
    if i < j {
        assert(crate::ast::apart(&children[i].node, &children[j].node));
    } else {
        assert(crate::ast::apart(&children[j].node, &children[i].node));
    }
}

/// In a tree that fits the source text, two parts of a node that play one
/// role can change places where their spans are known.
pub proof fn lemma_parts_can_swap(node: &SolAST, role: Role, len: int)
    requires
        node.well_formed(len),
        forall|a: int|
            0 <= a < node.parts(role).len() ==> (#[trigger] node.parts(role)[a]).bounds is Some,
    ensures
        pair_layout(node.parts(role), len),
{
    let children = node.children@;
    let parts = node.parts(role);
    lemma_parts_are_children(children, role);
    if parts.len() == 2 {
        assert(in_order(children, parts[0], parts[1]));
        let (i, j) = choose|i: int, j: int|
            0 <= i < j < children.len() && (#[trigger] children[i]).node == parts[0] && (
            #[trigger] children[j]).node == parts[1];
        assert(children[i].node.well_formed(len) && children[j].node.well_formed(len));
        assert(crate::ast::apart(&children[i].node, &children[j].node));
    }
}

/// Each operator is found again by its own name.
pub proof fn lemma_named_by_label(m: MutationType)
    ensures
        named(m.label()) == Some(m),
{
    reveal_strlit("BinaryOpMutation");
    reveal_strlit("RequireMutation");
    reveal_strlit("AssignmentMutation");
    reveal_strlit("DeleteExpressionMutation");
    reveal_strlit("FunctionCallMutation");
    reveal_strlit("IfStatementMutation");
    reveal_strlit("SwapArgumentsFunctionMutation");
    reveal_strlit("SwapArgumentsOperatorMutation");
    reveal_strlit("SwapLinesMutation");
    reveal_strlit("UnaryOperatorMutation");
    assert("BinaryOpMutation"@[0] == 'B');
    assert("RequireMutation"@[0] == 'R');
    assert("AssignmentMutation"@[0] == 'A');
    assert("DeleteExpressionMutation"@[0] == 'D');
    assert("FunctionCallMutation"@[0] == 'F');
    assert("IfStatementMutation"@[0] == 'I');
    assert("SwapArgumentsFunctionMutation"@[0] == 'S');
    assert("SwapArgumentsFunctionMutation"@[13] == 'F');
    assert("SwapArgumentsOperatorMutation"@[0] == 'S');
    assert("SwapArgumentsOperatorMutation"@[13] == 'O');
    assert("SwapLinesMutation"@[4] == 'L');
    assert("SwapArgumentsOperatorMutation"@[4] == 'A');
    assert("SwapArgumentsFunctionMutation"@[4] == 'A');
    assert("UnaryOperatorMutation"@[0] == 'U');
}

} // verus!
