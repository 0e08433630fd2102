//! The syntax tree of a JDS program, and its mathematical model: the same
//! tree with every `String` taken by its characters and every `Vec` by its
//! sequence of models.

use vstd::prelude::*;

verus! {

/// An operand: an integer literal, a variable, or the program's argument count.
#[derive(Debug)]
pub enum Term {
    Number(i32),
    Variable(String),
    ArgC,
}

/// An arithmetic operator.
#[derive(Debug, Clone, Copy)]
pub enum MathOp {
    Add,
    Sub,
    Mul,
    Div,
    Mod,
}

/// A comparison operator.
#[derive(Debug, Clone, Copy)]
pub enum CompOp {
    Eq,
    NotEq,
    Less,
    LessEq,
    Greater,
    GreaterEq,
}

/// An arithmetic expression.
#[derive(Debug)]
pub enum Expression {
    Term(Term),
    Binary(Box<Expression>, MathOp, Box<Expression>),
}

/// One `if`/`elif` arm: a comparison of two terms and the block it guards.
#[derive(Debug)]
pub struct IfBranch {
    pub left: Term,
    pub op: CompOp,
    pub right: Term,
    pub block: Vec<Node>,
}

/// A statement.
#[derive(Debug)]
pub enum Node {
    VarDeclaration(String, Option<Expression>),
    Assignment(String, Expression),
    ExitStatement(Term),
    PrintString(String, bool),
    PrintVar(Term, bool),
    IfStatement { branches: Vec<IfBranch>, else_block: Vec<Node> },
    WhileStatement(Term, CompOp, Term, Vec<Node>),
    InputStatement(String),
    ExecStatement(String),
}

/// Model of a [`Term`].
pub enum SpecTerm {
    Number(i32),
    Variable(Seq<char>),
    ArgC,
}

/// Model of an [`Expression`].
pub enum SpecExpr {
    Term(SpecTerm),
    Binary(Box<SpecExpr>, MathOp, Box<SpecExpr>),
}

/// Model of an [`IfBranch`].
pub struct SpecIfBranch {
    pub left: SpecTerm,
    pub op: CompOp,
    pub right: SpecTerm,
    pub block: Seq<SpecNode>,
}

/// Model of a [`Node`].
pub enum SpecNode {
    VarDeclaration(Seq<char>, Option<SpecExpr>),
    Assignment(Seq<char>, SpecExpr),
    ExitStatement(SpecTerm),
    PrintString(Seq<char>, bool),
    PrintVar(SpecTerm, bool),
    IfStatement { branches: Seq<SpecIfBranch>, else_block: Seq<SpecNode> },
    WhileStatement(SpecTerm, CompOp, SpecTerm, Seq<SpecNode>),
    InputStatement(Seq<char>),
    ExecStatement(Seq<char>),
}

impl View for Term {
    type V = SpecTerm;

    open spec fn view(&self) -> SpecTerm {
        match self {
            Term::Number(v) => SpecTerm::Number(*v),
            Term::Variable(name) => SpecTerm::Variable(name@),
            Term::ArgC => SpecTerm::ArgC,
        }
    }
}

/// The model of an expression.
pub open spec fn expr_view(e: Expression) -> SpecExpr
    decreases e,
{
    match e {
        Expression::Term(t) => SpecExpr::Term(t@),
        Expression::Binary(l, op, r) => SpecExpr::Binary(
            Box::new(expr_view(*l)),
            op,
            Box::new(expr_view(*r)),
        ),
    }
}

impl View for Expression {
    type V = SpecExpr;

    open spec fn view(&self) -> SpecExpr {
        expr_view(*self)
    }
}

/// The model of a statement.
pub open spec fn node_view(n: Node) -> SpecNode
    decreases n,
{
    match n {
        Node::VarDeclaration(name, e) => SpecNode::VarDeclaration(
            name@,
            match e {
                Some(e) => Some(e@),
                None => None,
            },
        ),
        Node::Assignment(name, e) => SpecNode::Assignment(name@, e@),
        Node::ExitStatement(t) => SpecNode::ExitStatement(t@),
        Node::PrintString(s, nl) => SpecNode::PrintString(s@, nl),
        Node::PrintVar(t, nl) => SpecNode::PrintVar(t@, nl),
        Node::IfStatement { branches, else_block } => SpecNode::IfStatement {
            branches: Seq::new(
                branches@.len(),
                |i: int|
                    if 0 <= i < branches@.len() {
                        branch_view(branches@[i])
                    } else {
                        arbitrary()
                    },
            ),
            else_block: Seq::new(
                else_block@.len(),
                |i: int|
                    if 0 <= i < else_block@.len() {
                        node_view(else_block@[i])
                    } else {
                        arbitrary()
                    },
            ),
        },
        Node::WhileStatement(l, op, r, b) => SpecNode::WhileStatement(
            l@,
            op,
            r@,
            Seq::new(
                b@.len(),
                |i: int|
                    if 0 <= i < b@.len() {
                        node_view(b@[i])
                    } else {
                        arbitrary()
                    },
            ),
        ),
        Node::InputStatement(name) => SpecNode::InputStatement(name@),
        Node::ExecStatement(name) => SpecNode::ExecStatement(name@),
    }
}

/// The model of an `if`/`elif` arm.
pub open spec fn branch_view(b: IfBranch) -> SpecIfBranch
    decreases b,
{
    SpecIfBranch {
        left: b.left@,
        op: b.op,
        right: b.right@,
        block: Seq::new(
            b.block@.len(),
            |i: int|
                if 0 <= i < b.block@.len() {
                    node_view(b.block@[i])
                } else {
                    arbitrary()
                },
        ),
    }
}

/// The models of a sequence of statements.
pub open spec fn nodes_view(v: Seq<Node>) -> Seq<SpecNode> {
    v.map_values(|n: Node| node_view(n))
}

/// The models of a sequence of `if`/`elif` arms.
pub open spec fn branches_view(v: Seq<IfBranch>) -> Seq<SpecIfBranch> {
    v.map_values(|b: IfBranch| branch_view(b))
}

impl View for Node {
    type V = SpecNode;

    open spec fn view(&self) -> SpecNode {
        node_view(*self)
    }
}

impl View for IfBranch {
    type V = SpecIfBranch;

    open spec fn view(&self) -> SpecIfBranch {
        branch_view(*self)
    }
}

/// The block of an `if`/`elif` arm, as the models of its statements.
pub proof fn lemma_branch_block(b: IfBranch)
    ensures
        branch_view(b).block == nodes_view(b.block@),
{
    assert(branch_view(b).block =~= nodes_view(b.block@));
}

/// The arms and the `else` block of an `if` statement, as models.
pub proof fn lemma_if_parts(branches: Vec<IfBranch>, else_block: Vec<Node>)
    ensures
        node_view(Node::IfStatement { branches, else_block }) == (SpecNode::IfStatement {
            branches: branches_view(branches@),
            else_block: nodes_view(else_block@),
        }),
{
    let n = Node::IfStatement { branches, else_block };
    match node_view(n) {
        SpecNode::IfStatement { branches: bs, else_block: es } => {
            assert(bs =~= branches_view(branches@));
            assert(es =~= nodes_view(else_block@));
        },
        _ => {},
    }
}

/// The body of a `while` statement, as models.
pub proof fn lemma_while_parts(l: Term, op: CompOp, r: Term, b: Vec<Node>)
    ensures
        node_view(Node::WhileStatement(l, op, r, b)) == SpecNode::WhileStatement(
            l@,
            op,
            r@,
            nodes_view(b@),
        ),
{
    let n = Node::WhileStatement(l, op, r, b);
    match node_view(n) {
        SpecNode::WhileStatement(_, _, _, body) => {
            assert(body =~= nodes_view(b@));
        },
        _ => {},
    }
}

impl Clone for Term {
    fn clone(&self) -> (r: Self)
        ensures
            r@ == self@,
    {
        match self {
            Term::Number(v) => Term::Number(*v),
            Term::Variable(name) => Term::Variable(name.clone()),
            Term::ArgC => Term::ArgC,
        }
    }
}

fn clone_expr(e: &Expression) -> (r: Expression)
    ensures
        r@ == e@,
    decreases e,
{
    match e {
        Expression::Term(t) => Expression::Term(t.clone()),
        Expression::Binary(l, op, r) => {
            let l2 = clone_expr(l);
            let r2 = clone_expr(r);
            Expression::Binary(Box::new(l2), *op, Box::new(r2))
        },
    }
}

impl Clone for Expression {
    fn clone(&self) -> (r: Self)
        ensures
            r@ == self@,
    {
        clone_expr(self)
    }
}

fn clone_nodes(v: &Vec<Node>) -> (r: Vec<Node>)
    ensures
        nodes_view(r@) == nodes_view(v@),
    decreases v, 1nat,
{
    let mut r: Vec<Node> = Vec::new();
    let n = v.len();
    let mut i: usize = 0;
    while i < n
        invariant
            n == v@.len(),
            i <= n,
            r@.len() == i,
            nodes_view(r@) == nodes_view(v@).take(i as int),
        decreases n - i,
    {
        assert(decreases_to!(v => v@));
        let c = clone_node(&v[i]);
        let ghost before = r@;
        r.push(c);
        assert(r@ == before.push(c));
        assert(nodes_view(r@)[i as int] == node_view(c));
        assert(nodes_view(r@) =~= nodes_view(v@).take(i as int + 1));
        i = i + 1;
    }
    assert(nodes_view(v@).take(n as int) =~= nodes_view(v@));
    r
}

fn clone_branches(v: &Vec<IfBranch>) -> (r: Vec<IfBranch>)
    ensures
        branches_view(r@) == branches_view(v@),
    decreases v, 1nat,
{
    let mut r: Vec<IfBranch> = Vec::new();
    let n = v.len();
    let mut i: usize = 0;
    while i < n
        invariant
            n == v@.len(),
            i <= n,
            r@.len() == i,
            branches_view(r@) == branches_view(v@).take(i as int),
        decreases n - i,
    {
        assert(decreases_to!(v => v@));
        let c = clone_branch(&v[i]);
        let ghost before = r@;
        r.push(c);
        assert(r@ == before.push(c));
        assert(branches_view(r@)[i as int] == branch_view(c));
        assert(branches_view(r@) =~= branches_view(v@).take(i as int + 1));
        i = i + 1;
    }
    assert(branches_view(v@).take(n as int) =~= branches_view(v@));
    r
}

fn clone_branch(b: &IfBranch) -> (r: IfBranch)
    ensures
        branch_view(r) == branch_view(*b),
    decreases b, 0nat,
{
    let block = clone_nodes(&b.block);
    let r = IfBranch { left: b.left.clone(), op: b.op, right: b.right.clone(), block };
    proof {
        lemma_branch_block(r);
        lemma_branch_block(*b);
    }
    r
}

fn clone_node(n: &Node) -> (r: Node)
    ensures
        node_view(r) == node_view(*n),
    decreases n, 0nat,
{
    match n {
        Node::VarDeclaration(name, e) => Node::VarDeclaration(
            name.clone(),
            match e {
                Some(e) => Some(clone_expr(e)),
                None => None,
            },
        ),
        Node::Assignment(name, e) => Node::Assignment(name.clone(), clone_expr(e)),
        Node::ExitStatement(t) => Node::ExitStatement(t.clone()),
        Node::PrintString(s, nl) => Node::PrintString(s.clone(), *nl),
        Node::PrintVar(t, nl) => Node::PrintVar(t.clone(), *nl),
        Node::IfStatement { branches, else_block } => {
            assert(decreases_to!(*n => *branches));
            let bs = clone_branches(branches);
            let es = clone_nodes(else_block);
            proof {
                lemma_if_parts(bs, es);
                lemma_if_parts(*branches, *else_block);
            }
            Node::IfStatement { branches: bs, else_block: es }
        },
        Node::WhileStatement(l, op, r, b) => {
            let b2 = clone_nodes(b);
            let l2 = l.clone();
            let r2 = r.clone();
            proof {
                lemma_while_parts(l2, *op, r2, b2);
                lemma_while_parts(*l, *op, *r, *b);
            }
            Node::WhileStatement(l2, *op, r2, b2)
        },
        Node::InputStatement(name) => Node::InputStatement(name.clone()),
        Node::ExecStatement(name) => Node::ExecStatement(name.clone()),
    }
}

impl Clone for IfBranch {
    fn clone(&self) -> (r: Self)
        ensures
            r@ == self@,
    {
        clone_branch(self)
    }
}

impl Clone for Node {
    fn clone(&self) -> (r: Self)
        ensures
            r@ == self@,
    {
        clone_node(self)
    }
}

} // verus!
