//! The syntax tree of one source file: what a node holds, how to move from
//! a node to the parts it is made of, and how to rewrite the source at a
//! node's place.

use crate::text::{
    all_fit, comment_wrap, commented, copy_span, disjoint, patches, replace_span, replace_spans,
    rewritten, spliced, Edit, Patch,
};
use vstd::prelude::*;
use vstd::string::StringExecFns;

verus! {

/// The part that a node plays in the node above it.
#[derive(Clone, Copy, Debug, PartialEq, Eq, Structural)]
pub enum Role {
    /// What a statement evaluates, or what a call calls.
    Expression,
    /// The left operand of a binary operation.
    LeftExpression,
    /// The right operand of a binary operation.
    RightExpression,
    /// The condition of an `if`.
    Condition,
    /// One argument of a call.
    Argument,
    /// One statement of a block.
    Statement,
    /// Any other part.
    Other,
}

/// A node together with the part it plays in the node above it.
#[derive(Debug)]
pub struct Child {
    /// The part that the node plays.
    pub role: Role,
    /// The node.
    pub node: SolAST,
}

/// One node of the tree. The parts of a node stand in `children`, in the
/// order of the parse.
#[derive(Debug)]
pub struct SolAST {
    /// The syntactic category, where the parse gives one.
    pub node_type: Option<String>,
    /// The name that an identifier or a declaration carries.
    pub name: Option<String>,
    /// The operator token of an operation.
    pub operator: Option<String>,
    /// The bytes of the source file that the node covers: `start` and `end`
    /// of the half-open range `[start, end)`.
    pub bounds: Option<(usize, usize)>,
    /// The parts of the node.
    pub children: Vec<Child>,
}

/// The first of `children` that plays `role`.
pub open spec fn first_with(children: Seq<Child>, role: Role) -> Option<SolAST>
    decreases children.len(),
{
    if children.len() == 0 {
        None
    } else if children[0].role == role {
        Some(children[0].node)
    } else {
        first_with(children.drop_first(), role)
    }
}

/// Those of `children` that play `role`, in their order.
pub open spec fn all_with(children: Seq<Child>, role: Role) -> Seq<SolAST>
    decreases children.len(),
{
    if children.len() == 0 {
        Seq::empty()
    } else if children.last().role == role {
        all_with(children.drop_last(), role).push(children.last().node)
    } else {
        all_with(children.drop_last(), role)
    }
}

/// The nodes that a list of references points to.
pub open spec fn nodes_of(refs: Seq<&SolAST>) -> Seq<SolAST> {
    Seq::new(refs.len(), |i: int| *refs[i])
}

/// The edit that puts `text` in the place of `node`.
pub open spec fn patch_at(node: &SolAST, text: Seq<u8>) -> Patch {
    Patch {
        start: node.bounds.unwrap().0 as int,
        end: node.bounds.unwrap().1 as int,
        text: text,
    }
}

/// The edits that put, in the place of each node, the text paired with it.
pub open spec fn edits_of(replacements: Seq<(&SolAST, Vec<u8>)>) -> Seq<Patch> {
    Seq::new(replacements.len(), |i: int| patch_at(replacements[i].0, replacements[i].1@))
}

/// The span of `inner` lies inside the span of `outer`, where both spans
/// are known.
pub open spec fn inside(inner: &SolAST, outer: &SolAST) -> bool {
    inner.bounds is Some && outer.bounds is Some ==> outer.bounds.unwrap().0
        <= inner.bounds.unwrap().0 && inner.bounds.unwrap().1 <= outer.bounds.unwrap().1
}

/// The spans of `a` and `b` share no byte, where both spans are known.
pub open spec fn apart(a: &SolAST, b: &SolAST) -> bool {
    a.bounds is Some && b.bounds is Some ==> a.bounds.unwrap().1 <= b.bounds.unwrap().0
        || b.bounds.unwrap().1 <= a.bounds.unwrap().0
}

/// A yes-or-no question about a node, asked while a tree is walked.
pub trait NodeTest {
    /// The answer for `node`.
    spec fn holds(&self, node: &SolAST) -> bool;

    /// Answers the question for `node`.
    fn test(&self, node: &SolAST) -> (answer: bool)
        ensures
            answer == self.holds(node),
    ;
}

/// The question to which every node answers yes.
pub struct Everywhere;

/// The question to which every node answers no.
pub struct Nowhere;

impl NodeTest for Everywhere {
    open spec fn holds(&self, node: &SolAST) -> bool {
        true
    }

    fn test(&self, node: &SolAST) -> (answer: bool) {
        true
    }
}

impl NodeTest for Nowhere {
    open spec fn holds(&self, node: &SolAST) -> bool {
        false
    }

    fn test(&self, node: &SolAST) -> (answer: bool) {
        false
    }
}

/// The nodes that a walk of `node` and all below it collects, in pre-order.
///
/// A node at which `skip` holds is left out together with everything below
/// it. Of the others, a node is collected where `visit` holds and the node
/// lies in scope: `inside` says whether the walk is in scope when it comes
/// to `node`, and a node at which `accept` holds opens a scope for itself
/// and everything below it.
pub open spec fn selected<V: NodeTest, S: NodeTest, A: NodeTest>(
    node: &SolAST,
    visit: &V,
    skip: &S,
    accept: &A,
    inside: bool,
) -> Seq<SolAST>
    decreases node, node.children@.len() + 1,
{
    if skip.holds(node) {
        Seq::empty()
    } else {
        let within = inside || accept.holds(node);
        let here = if within && visit.holds(node) {
            seq![*node]
        } else {
            Seq::empty()
        };
        here + selected_below(node, visit, skip, accept, within, 0)
    }
}

/// What the walk collects in the parts of `node` from the part at index
/// `from` on, where `within` says whether those parts lie in scope.
pub open spec fn selected_below<V: NodeTest, S: NodeTest, A: NodeTest>(
    node: &SolAST,
    visit: &V,
    skip: &S,
    accept: &A,
    within: bool,
    from: nat,
) -> Seq<SolAST>
    decreases node, node.children@.len() - from,
{
    if from >= node.children@.len() {
        Seq::empty()
    } else {
        selected(&node.children@[from as int].node, visit, skip, accept, within) + selected_below(
            node,
            visit,
            skip,
            accept,
            within,
            from + 1,
        )
    }
}

/// `node` and every node below it, in pre-order.
pub open spec fn subtree(node: &SolAST) -> Seq<SolAST> {
    selected(node, &Everywhere, &Nowhere, &Everywhere, true)
}

/// `x` lies in the scope that some node of the tree opens: at a node of the
/// tree `accept` holds, and `x` is that node or lies below it.
pub open spec fn in_scope<A: NodeTest>(node: &SolAST, accept: &A, x: SolAST) -> bool {
    exists|a: SolAST| #[trigger]
        subtree(node).contains(a) && accept.holds(&a) && subtree(&a).contains(x)
}

/// An element of a concatenation is an element of one of the two parts.
proof fn lemma_contains_add<T>(a: Seq<T>, b: Seq<T>, x: T)
    ensures
        (a + b).contains(x) <==> a.contains(x) || b.contains(x),
{
    if a.contains(x) {
        let i = choose|i: int| 0 <= i < a.len() && a[i] == x;
        assert((a + b)[i] == x);
    }
    if b.contains(x) {
        let i = choose|i: int| 0 <= i < b.len() && b[i] == x;
        assert((a + b)[a.len() + i] == x);
    }
    if (a + b).contains(x) {
        let i = choose|i: int| 0 <= i < (a + b).len() && (a + b)[i] == x;
        if i < a.len() {
            assert(a[i] == x);
        } else {
            assert(b[i - a.len()] == x);
        }
    }
}

/// A node is the first of its own subtree.
pub proof fn lemma_subtree_holds_root(node: &SolAST)
    ensures
        subtree(node).contains(*node),
{
    assert(subtree(node)[0] == *node);
}

/// What is walked in the parts from index `from` on holds the subtree of
/// every part from there on.
proof fn lemma_parts_from(node: &SolAST, from: nat, i: int, x: SolAST)
    requires
        from <= i < node.children@.len(),
        subtree(&node.children@[i].node).contains(x),
    ensures
        selected_below(node, &Everywhere, &Nowhere, &Everywhere, true, from).contains(x),
    decreases i - from,
{
    let first = subtree(&node.children@[from as int].node);
    let rest = selected_below(node, &Everywhere, &Nowhere, &Everywhere, true, from + 1);
    lemma_contains_add(first, rest, x);
    if from < i {
        lemma_parts_from(node, from + 1, i, x);
    }
}

/// The subtree of a node holds the subtree of each of its parts.
pub proof fn lemma_subtree_holds_parts(node: &SolAST, i: int)
    requires
        0 <= i < node.children@.len(),
    ensures
        forall|x: SolAST| #[trigger]
            subtree(&node.children@[i].node).contains(x) ==> subtree(node).contains(x),
{
    assert forall|x: SolAST| #[trigger]
        subtree(&node.children@[i].node).contains(x) implies subtree(node).contains(x) by {
        lemma_parts_from(node, 0, i, x);
        lemma_contains_add(
            seq![*node],
            selected_below(node, &Everywhere, &Nowhere, &Everywhere, true, 0),
            x,
        );
    }
}

/// A node at which `skip` holds is left out of the walk, with everything
/// below it, in scope or out of it.
pub proof fn lemma_skipped_left_out<V: NodeTest, S: NodeTest, A: NodeTest>(
    node: &SolAST,
    visit: &V,
    skip: &S,
    accept: &A,
    inside: bool,
)
    requires
        skip.holds(node),
    ensures
        selected(node, visit, skip, accept, inside) == Seq::<SolAST>::empty(),
{
}

/// Every collected node is a node of the tree at which `visit` holds and
/// `skip` does not.
pub proof fn lemma_selected_nodes<V: NodeTest, S: NodeTest, A: NodeTest>(
    node: &SolAST,
    visit: &V,
    skip: &S,
    accept: &A,
    inside: bool,
)
    ensures
        forall|x: SolAST| #[trigger]
            selected(node, visit, skip, accept, inside).contains(x) ==> visit.holds(&x)
                && !skip.holds(&x) && subtree(node).contains(x),
    decreases node, node.children@.len() + 1,
{
    if !skip.holds(node) {
        let within = inside || accept.holds(node);
        let here = if within && visit.holds(node) {
            seq![*node]
        } else {
            Seq::empty()
        };
        let below = selected_below(node, visit, skip, accept, within, 0);
        lemma_selected_below_nodes(node, visit, skip, accept, within, 0);
        lemma_subtree_holds_root(node);
        assert forall|x: SolAST| #[trigger]
            selected(node, visit, skip, accept, inside).contains(x) implies visit.holds(&x)
            && !skip.holds(&x) && subtree(node).contains(x) by {
            lemma_contains_add(here, below, x);
            if here.contains(x) {
                assert(x == *node);
            }
        }
    }
}

proof fn lemma_selected_below_nodes<V: NodeTest, S: NodeTest, A: NodeTest>(
    node: &SolAST,
    visit: &V,
    skip: &S,
    accept: &A,
    within: bool,
    from: nat,
)
    ensures
        forall|x: SolAST| #[trigger]
            selected_below(node, visit, skip, accept, within, from).contains(x) ==> visit.holds(&x)
                && !skip.holds(&x) && subtree(node).contains(x),
    decreases node, node.children@.len() - from,
{
    if from < node.children@.len() {
        let part = &node.children@[from as int].node;
        let first = selected(part, visit, skip, accept, within);
        let rest = selected_below(node, visit, skip, accept, within, from + 1);
        lemma_selected_nodes(part, visit, skip, accept, within);
        lemma_selected_below_nodes(node, visit, skip, accept, within, from + 1);
        lemma_subtree_holds_parts(node, from as int);
        assert forall|x: SolAST| #[trigger]
            selected_below(node, visit, skip, accept, within, from).contains(x) implies visit.holds(
            &x,
        ) && !skip.holds(&x) && subtree(node).contains(x) by {
            lemma_contains_add(first, rest, x);
        }
    }
}

/// A walk that starts out of scope collects only nodes that lie in a scope
/// which a node of the tree opens: no node outside every such scope is
/// collected.
pub proof fn lemma_selected_in_scope<V: NodeTest, S: NodeTest, A: NodeTest>(
    node: &SolAST,
    visit: &V,
    skip: &S,
    accept: &A,
)
    ensures
        forall|x: SolAST| #[trigger]
            selected(node, visit, skip, accept, false).contains(x) ==> in_scope(node, accept, x),
    decreases node, node.children@.len() + 1,
{
    if !skip.holds(node) {
        lemma_subtree_holds_root(node);
        if accept.holds(node) {
            lemma_selected_nodes(node, visit, skip, accept, false);
        } else {
            lemma_below_in_scope(node, visit, skip, accept, 0);
            assert(selected(node, visit, skip, accept, false) =~= selected_below(
                node,
                visit,
                skip,
                accept,
                false,
                0,
            ));
        }
    }
}

proof fn lemma_below_in_scope<V: NodeTest, S: NodeTest, A: NodeTest>(
    node: &SolAST,
    visit: &V,
    skip: &S,
    accept: &A,
    from: nat,
)
    ensures
        forall|x: SolAST| #[trigger]
            selected_below(node, visit, skip, accept, false, from).contains(x) ==> in_scope(
                node,
                accept,
                x,
            ),
    decreases node, node.children@.len() - from,
{
    if from < node.children@.len() {
        let part = &node.children@[from as int].node;
        let first = selected(part, visit, skip, accept, false);
        let rest = selected_below(node, visit, skip, accept, false, from + 1);
        lemma_selected_in_scope(part, visit, skip, accept);
        lemma_below_in_scope(node, visit, skip, accept, from + 1);
        lemma_subtree_holds_parts(node, from as int);
        assert forall|x: SolAST| #[trigger]
            selected_below(node, visit, skip, accept, false, from).contains(x) implies in_scope(
            node,
            accept,
            x,
        ) by {
            lemma_contains_add(first, rest, x);
            if first.contains(x) {
                let a = choose|a: SolAST| #[trigger]
                    subtree(part).contains(a) && accept.holds(&a) && subtree(&a).contains(x);
                assert(subtree(node).contains(a));
            }
        }
    }
}

impl SolAST {
    /// The node's span is known and is a range of a text of `len` bytes.
    pub open spec fn spans(&self, len: int) -> bool {
        self.bounds matches Some(b) && b.0 <= b.1 <= len
    }

    /// The tree fits a source text of `len` bytes: every span that is known
    /// is a range of the text, the span of a part lies inside the span of
    /// the node it is a part of, and the spans of two parts of one node
    /// share no byte.
    pub open spec fn well_formed(&self, len: int) -> bool
        decreases self,
    {
        &&& self.bounds is Some ==> self.bounds.unwrap().0 <= self.bounds.unwrap().1 <= len
        &&& forall|i: int|
            0 <= i < self.children@.len() ==> inside(&(#[trigger] self.children@[i]).node, self)
        &&& forall|i: int, j: int|
            0 <= i < j < self.children@.len() ==> apart(
                &(#[trigger] self.children@[i]).node,
                &(#[trigger] self.children@[j]).node,
            )
        &&& forall|i: int|
            0 <= i < self.children@.len() ==> (#[trigger] self.children@[i]).node.well_formed(len)
    }

    /// The bytes of `source` that the node covers.
    pub open spec fn text_in(&self, source: Seq<u8>) -> Seq<u8> {
        source.subrange(self.bounds.unwrap().0 as int, self.bounds.unwrap().1 as int)
    }

    /// `source` with `text` in the node's place.
    pub open spec fn replaced(&self, source: Seq<u8>, text: Seq<u8>) -> Seq<u8> {
        spliced(source, text, self.bounds.unwrap().0 as int, self.bounds.unwrap().1 as int)
    }

    /// The first part that plays `role`.
    pub open spec fn part(&self, role: Role) -> Option<SolAST> {
        first_with(self.children@, role)
    }

    /// The parts that play `role`, in their order.
    pub open spec fn parts(&self, role: Role) -> Seq<SolAST> {
        all_with(self.children@, role)
    }

    /// A node of the category `node_type` that covers the bytes at
    /// `[start, end)`, without a name, an operator or parts.
    pub fn new(node_type: &str, start: usize, end: usize) -> (node: SolAST)
        ensures
            node.node_type matches Some(kind) && kind@ == node_type@,
            node.name is None,
            node.operator is None,
            node.bounds == Some((start, end)),
            node.children@.len() == 0,
    {
        SolAST {
            node_type: Some(String::from_str(node_type)),
            name: None,
            operator: None,
            bounds: Some((start, end)),
            children: Vec::new(),
        }
    }

    /// A node of which nothing is known.
    pub fn unknown() -> (node: SolAST)
        ensures
            node.node_type is None,
            node.name is None,
            node.operator is None,
            node.bounds is None,
            node.children@.len() == 0,
    {
        SolAST { node_type: None, name: None, operator: None, bounds: None, children: Vec::new() }
    }

    /// The node with the name `name`.
    pub fn with_name(self, name: &str) -> (node: SolAST)
        ensures
            node.name matches Some(n) && n@ == name@,
            node.node_type == self.node_type,
            node.operator == self.operator,
            node.bounds == self.bounds,
            node.children == self.children,
    {
        let mut node = self;
        node.name = Some(String::from_str(name));
        node
    }

    /// The node with the operator token `operator`.
    pub fn with_operator(self, operator: &str) -> (node: SolAST)
        ensures
            node.operator matches Some(o) && o@ == operator@,
            node.node_type == self.node_type,
            node.name == self.name,
            node.bounds == self.bounds,
            node.children == self.children,
    {
        let mut node = self;
        node.operator = Some(String::from_str(operator));
        node
    }

    /// The node with one more part, behind the parts it has.
    pub fn with_part(self, role: Role, part: SolAST) -> (node: SolAST)
        ensures
            node.children@ == self.children@.push(Child { role: role, node: part }),
            node.node_type == self.node_type,
            node.name == self.name,
            node.operator == self.operator,
            node.bounds == self.bounds,
    {
        let mut node = self;
        node.children.push(Child { role: role, node: part });
        node
    }

    /// The node's syntactic category, if the parse gave one.
    pub fn node_type(&self) -> (kind: Option<&String>)
        ensures
            kind is Some <==> self.node_type is Some,
            kind matches Some(k) ==> self.node_type == Some(*k),
    {
        self.node_type.as_ref()
    }

    /// The node's name, if it has one.
    pub fn name(&self) -> (name: Option<&String>)
        ensures
            name is Some <==> self.name is Some,
            name matches Some(n) ==> self.name == Some(*n),
    {
        self.name.as_ref()
    }

    /// The node's operator token, if it has one.
    pub fn operator(&self) -> (operator: Option<&String>)
        ensures
            operator is Some <==> self.operator is Some,
            operator matches Some(o) ==> self.operator == Some(*o),
    {
        self.operator.as_ref()
    }

    /// Start and end of the half-open byte range that the node covers.
    pub fn get_bounds(&self) -> (bounds: (usize, usize))
        requires
            self.bounds is Some,
        ensures
            Some(bounds) == self.bounds,
    {
        match self.bounds {
            Some(b) => b,
            None => (0, 0),
        }
    }

    /// The first part that plays `role`, if there is one.
    pub fn find_part(&self, role: Role) -> (found: Option<&SolAST>)
        ensures
            found is Some <==> self.part(role) is Some,
            found matches Some(n) ==> self.part(role) == Some(*n),
    {
        let mut i: usize = 0;
        proof {
            assert(self.children@.subrange(0, self.children@.len() as int) =~= self.children@);
        }
        while i < self.children.len()
            invariant
                i <= self.children.len(),
                first_with(self.children@, role) == first_with(
                    self.children@.subrange(i as int, self.children@.len() as int),
                    role,
                ),
            decreases self.children.len() - i,
        {
            if self.children[i].role == role {
                return Some(&self.children[i].node);
            }
            proof {
                let rest = self.children@.subrange(i as int, self.children@.len() as int);
                assert(rest.drop_first() =~= self.children@.subrange(
                    i + 1,
                    self.children@.len() as int,
                ));
            }
            i += 1;
        }
        None
    }

    /// The parts that play `role`, in their order.
    pub fn find_parts(&self, role: Role) -> (found: Vec<&SolAST>)
        ensures
            nodes_of(found@) == self.parts(role),
    {
        let mut found: Vec<&SolAST> = Vec::new();
        let mut i: usize = 0;
        while i < self.children.len()
            invariant
                i <= self.children.len(),
                nodes_of(found@) == all_with(self.children@.take(i as int), role),
            decreases self.children.len() - i,
        {
            proof {
                assert(self.children@.take(i + 1).drop_last() =~= self.children@.take(i as int));
            }
            if self.children[i].role == role {
                found.push(&self.children[i].node);
            }
            assert(nodes_of(found@) =~= all_with(self.children@.take(i + 1), role));
            i += 1;
        }
        proof {
            assert(self.children@.take(self.children@.len() as int) =~= self.children@);
        }
        found
    }

    /// What the node evaluates or calls.
    pub fn expression(&self) -> (found: Option<&SolAST>)
        ensures
            found is Some <==> self.part(Role::Expression) is Some,
            found matches Some(n) ==> self.part(Role::Expression) == Some(*n),
    {
        self.find_part(Role::Expression)
    }

    /// The left operand.
    pub fn left_expression(&self) -> (found: Option<&SolAST>)
        ensures
            found is Some <==> self.part(Role::LeftExpression) is Some,
            found matches Some(n) ==> self.part(Role::LeftExpression) == Some(*n),
    {
        self.find_part(Role::LeftExpression)
    }

    /// The right operand.
    pub fn right_expression(&self) -> (found: Option<&SolAST>)
        ensures
            found is Some <==> self.part(Role::RightExpression) is Some,
            found matches Some(n) ==> self.part(Role::RightExpression) == Some(*n),
    {
        self.find_part(Role::RightExpression)
    }

    /// The condition.
    pub fn condition(&self) -> (found: Option<&SolAST>)
        ensures
            found is Some <==> self.part(Role::Condition) is Some,
            found matches Some(n) ==> self.part(Role::Condition) == Some(*n),
    {
        self.find_part(Role::Condition)
    }

    /// The arguments, in their order.
    pub fn arguments(&self) -> (found: Vec<&SolAST>)
        ensures
            nodes_of(found@) == self.parts(Role::Argument),
    {
        self.find_parts(Role::Argument)
    }

    /// The statements, in their order.
    pub fn statements(&self) -> (found: Vec<&SolAST>)
        ensures
            nodes_of(found@) == self.parts(Role::Statement),
    {
        self.find_parts(Role::Statement)
    }

    /// The bytes of `source` that the node covers.
    pub fn get_text(&self, source: &[u8]) -> (text: Vec<u8>)
        requires
            self.spans(source@.len() as int),
        ensures
            text@ == self.text_in(source@),
            text@ == source@.subrange(
                self.bounds.unwrap().0 as int,
                self.bounds.unwrap().1 as int,
            ),
    {
        let bounds: (usize, usize) = self.get_bounds();
        copy_span(source, bounds.0, bounds.1)
    }

    /// The whole of `source` with `[start, end)` replaced by `text`.
    pub fn replace_part(&self, source: &[u8], text: &[u8], start: usize, end: usize) -> (out: Vec<
        u8,
    >)
        requires
            start <= end <= source@.len(),
        ensures
            out@ == spliced(source@, text@, start as int, end as int),
    {
        replace_span(source, text, start, end)
    }

    /// The whole of `source` with the node's own span replaced by `text`.
    pub fn replace_in_source(&self, source: &[u8], text: &[u8]) -> (out: Vec<u8>)
        requires
            self.spans(source@.len() as int),
        ensures
            out@ == self.replaced(source@, text@),
    {
        let bounds: (usize, usize) = self.get_bounds();
        replace_span(source, text, bounds.0, bounds.1)
    }

    /// The whole of `source` with each listed node's span replaced by the
    /// text paired with it. Every span is taken where `source` has it, so a
    /// text taken from `source` beforehand is not affected by the other
    /// replacements.
    pub fn replace_multiple(&self, source: &[u8], replacements: Vec<(&SolAST, Vec<u8>)>) -> (out:
        Vec<u8>)
        requires
            forall|i: int|
                0 <= i < replacements@.len() ==> (#[trigger] replacements@[i]).0.spans(
                    source@.len() as int,
                ),
            disjoint(edits_of(replacements@)),
        ensures
            out@ == rewritten(source@, edits_of(replacements@)),
    {
        let mut edits: Vec<Edit> = Vec::new();
        let mut rest = replacements;
        while rest.len() > 0
            invariant
                forall|i: int|
                    0 <= i < rest@.len() ==> (#[trigger] rest@[i]).0.spans(source@.len() as int),
                patches(edits@) + edits_of(rest@) == edits_of(replacements@),
            decreases rest.len(),
        {
            let ghost before = rest@;
            let ghost done = patches(edits@);
            let pair = rest.remove(0);
            let bounds: (usize, usize) = match pair.0.bounds {
                Some(b) => b,
                None => (0, 0),
            };
            edits.push(Edit { start: bounds.0, end: bounds.1, text: pair.1 });
            proof {
                assert(before[0].0.spans(source@.len() as int));
                assert forall|i: int| 0 <= i < rest@.len() implies (#[trigger] rest@[i]).0.spans(
                    source@.len() as int,
                ) by {
                    assert(rest@[i] == before[i + 1]);
                }
                assert(edits_of(before) =~= seq![edits@.last()@] + edits_of(rest@));
                assert(patches(edits@) =~= done + seq![edits@.last()@]);
                assert(patches(edits@) + edits_of(rest@) =~= done + edits_of(before));
            }
        }
        proof {
            assert(patches(edits@) =~= edits_of(replacements@));
            assert forall|i: int| 0 <= i < replacements@.len() implies 0 <= (#[trigger] edits_of(
                replacements@,
            )[i]).start <= edits_of(replacements@)[i].end <= source@.len() by {
                assert(replacements@[i].0.spans(source@.len() as int));
            }
        }
        replace_spans(source, edits)
    }

    /// The whole of `source` with the node's text put inside a block comment.
    pub fn comment_out(&self, source: &[u8]) -> (out: Vec<u8>)
        requires
            self.spans(source@.len() as int),
        ensures
            out@ == self.replaced(source@, commented(self.text_in(source@))),
    {
        let own = self.get_text(source);
        let wrapped = comment_wrap(own.as_slice());
        self.replace_in_source(source, wrapped.as_slice())
    }
    /// The nodes of this tree that a walk collects, in pre-order: those in
    /// scope at which `visit` holds, without the nodes at which `skip` holds
    /// and everything below them. A scope opens at each node at which
    /// `accept` holds, and the walk starts out of scope.
    pub fn traverse<'a, V: NodeTest, S: NodeTest, A: NodeTest>(
        &'a self,
        visit: &V,
        skip: &S,
        accept: &A,
    ) -> (found: Vec<&'a SolAST>)
        ensures
            nodes_of(found@) == selected(self, visit, skip, accept, false),
    {
        let mut found: Vec<&'a SolAST> = Vec::new();
        self.walk(visit, skip, accept, false, &mut found);
        assert(nodes_of(found@) =~= selected(self, visit, skip, accept, false));
        found
    }

    /// Adds to `found` what a walk of this node collects.
    fn walk<'a, V: NodeTest, S: NodeTest, A: NodeTest>(
        &'a self,
        visit: &V,
        skip: &S,
        accept: &A,
        inside: bool,
        found: &mut Vec<&'a SolAST>,
    )
        ensures
            nodes_of(final(found)@) == nodes_of(old(found)@) + selected(
                self,
                visit,
                skip,
                accept,
                inside,
            ),
        decreases self,
    {
        if skip.test(self) {
            assert(nodes_of(found@) =~= nodes_of(old(found)@) + Seq::<SolAST>::empty());
            return ;
        }
        let within = inside || accept.test(self);
        if within && visit.test(self) {
            found.push(self);
        }
        assert(nodes_of(found@) + selected_below(self, visit, skip, accept, within, 0) =~= nodes_of(
            old(found)@,
        ) + selected(self, visit, skip, accept, inside));
        let mut i: usize = 0;
        while i < self.children.len()
            invariant
                i <= self.children.len(),
                nodes_of(found@) + selected_below(self, visit, skip, accept, within, i as nat)
                    == nodes_of(old(found)@) + selected(self, visit, skip, accept, inside),
            decreases self.children.len() - i,
        {
            let ghost before = nodes_of(found@);
            self.children[i].node.walk(visit, skip, accept, within, found);
            proof {
                assert(nodes_of(found@) + selected_below(
                    self,
                    visit,
                    skip,
                    accept,
                    within,
                    (i + 1) as nat,
                ) =~= before + selected_below(self, visit, skip, accept, within, i as nat));
            }
            i += 1;
        }
        assert(nodes_of(found@) =~= nodes_of(found@) + selected_below(
            self,
            visit,
            skip,
            accept,
            within,
            i as nat,
        ));
    }
    /// Whether the tree fits a source text of `len` bytes.
    pub fn is_well_formed(&self, len: usize) -> (ok: bool)
        ensures
            ok == self.well_formed(len as int),
        decreases self,
    {
        match self.bounds {
            Some(b) => {
                if b.0 > b.1 || b.1 > len {
                    return false;
                }
            },
            None => {},
        }
        let mut i: usize = 0;
        while i < self.children.len()
            invariant
                i <= self.children.len(),
                self.bounds is Some ==> self.bounds.unwrap().0 <= self.bounds.unwrap().1 <= len,
                forall|k: int| 0 <= k < i ==> inside(&(#[trigger] self.children@[k]).node, self),
                forall|k: int, j: int|
                    0 <= k < j < self.children@.len() && k < i ==> apart(
                        &(#[trigger] self.children@[k]).node,
                        &(#[trigger] self.children@[j]).node,
                    ),
                forall|k: int|
                    0 <= k < i ==> (#[trigger] self.children@[k]).node.well_formed(len as int),
            decreases self.children.len() - i,
        {
            let part = &self.children[i].node;
            if !lies_inside(part, self) {
                return false;
            }
            if !part.is_well_formed(len) {
                return false;
            }
            let mut j: usize = i + 1;
            while j < self.children.len()
                invariant
                    i < j <= self.children.len(),
                    *part == self.children@[i as int].node,
                    forall|k: int|
                        i < k < j ==> apart(part, &(#[trigger] self.children@[k]).node),
                decreases self.children.len() - j,
            {
                if !lie_apart(part, &self.children[j].node) {
                    return false;
                }
                j += 1;
            }
            i += 1;
        }
        true
    }
}

/// Whether the span of `inner` lies inside the span of `outer`, where both
/// spans are known.
fn lies_inside(inner: &SolAST, outer: &SolAST) -> (ok: bool)
    ensures
        ok == inside(inner, outer),
{
    match inner.bounds {
        Some(i) => match outer.bounds {
            Some(o) => o.0 <= i.0 && i.1 <= o.1,
            None => true,
        },
        None => true,
    }
}

/// Whether the spans of `a` and `b` share no byte, where both spans are
/// known.
fn lie_apart(a: &SolAST, b: &SolAST) -> (ok: bool)
    ensures
        ok == apart(a, b),
{
    match a.bounds {
        Some(x) => match b.bounds {
            Some(y) => x.1 <= y.0 || y.1 <= x.0,
            None => true,
        },
        None => true,
    }
}

/// Putting a node's own text back in its place leaves the source as it was.
pub proof fn lemma_replaced_by_own_text(node: &SolAST, source: Seq<u8>)
    requires
        node.spans(source.len() as int),
    ensures
        node.replaced(source, node.text_in(source)) == source,
{
    assert(node.replaced(source, node.text_in(source)) =~= source);
}

/// Where a tree fits a source text, everything below each of its nodes
/// fits it too.
pub proof fn lemma_subtree_well_formed(node: &SolAST, len: int)
    requires
        node.well_formed(len),
    ensures
        forall|x: SolAST| #[trigger] subtree(node).contains(x) ==> x.well_formed(len),
    decreases node, node.children@.len() + 1,
{
    let below = selected_below(node, &Everywhere, &Nowhere, &Everywhere, true, 0);
    lemma_parts_well_formed(node, len, 0);
    assert forall|x: SolAST| #[trigger] subtree(node).contains(x) implies x.well_formed(len) by {
        lemma_contains_add(seq![*node], below, x);
        if seq![*node].contains(x) {
            assert(x == *node);
        }
    }
}

proof fn lemma_parts_well_formed(node: &SolAST, len: int, from: nat)
    requires
        node.well_formed(len),
    ensures
        forall|x: SolAST| #[trigger]
            selected_below(node, &Everywhere, &Nowhere, &Everywhere, true, from).contains(x)
                ==> x.well_formed(len),
    decreases node, node.children@.len() - from,
{
    if from < node.children@.len() {
        let part = &node.children@[from as int].node;
        let first = subtree(part);
        let rest = selected_below(node, &Everywhere, &Nowhere, &Everywhere, true, from + 1);
        assert(node.children@[from as int].node.well_formed(len));
        lemma_subtree_well_formed(part, len);
        lemma_parts_well_formed(node, len, from + 1);
        assert forall|x: SolAST| #[trigger]
            selected_below(node, &Everywhere, &Nowhere, &Everywhere, true, from).contains(
                x,
            ) implies x.well_formed(len) by {
            lemma_contains_add(first, rest, x);
        }
    }
}

} // verus!
