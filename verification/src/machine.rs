//! What the generated assembly does. The instructions that the code
//! generator writes are modelled with their x86 meaning: registers, the
//! stack, memory, and the flags that `cmp` sets for a conditional jump. Laws
//! about the generator are stated over this model, so that they say what the
//! assembly computes rather than which text it is.

use vstd::prelude::*;

use crate::ast::{CompOp, MathOp, SpecExpr, SpecIfBranch, SpecNode, SpecTerm};
use crate::compiler::{
    compile_branches, compile_node, compile_nodes, expr_code, load_code, op_code, store_code,
    CompilerModel,
};
use crate::laws::{is_prefix, lemma_compile_branches, lemma_compile_nodes};
use crate::text::{decimal, int_text};

verus! {

/// The registers that the generated code loads terms into.
pub enum Reg {
    Rax,
    Rbx,
    Rdi,
}

/// The conditions of x86's signed conditional jumps.
pub enum Cond {
    /// `je`: the operands are equal.
    E,
    /// `jne`: they differ.
    Ne,
    /// `jl`: the first is less.
    L,
    /// `jle`: the first is less or equal.
    Le,
    /// `jg`: the first is greater.
    G,
    /// `jge`: the first is greater or equal.
    Ge,
}

/// The instructions of the generated code that compute values and decide
/// jumps.
pub enum Instr {
    /// `mov reg, value`.
    MovImm(Reg, i32),
    /// `mov reg, [rel argc_val]`: the saved argument count.
    MovArgc(Reg),
    /// `mov reg, qword [rel name]`: a variable's value.
    MovVar(Reg, Seq<char>),
    /// `push rax`.
    PushRax,
    /// `pop rax`.
    PopRax,
    /// `mov rbx, rax`.
    MovRbxRax,
    /// `add rax, rbx`.
    Add,
    /// `sub rax, rbx`.
    Sub,
    /// `imul rax, rbx`.
    Imul,
    /// `cqo`: sign-extends `rax` into `rdx`.
    Cqo,
    /// `idiv rbx`: quotient into `rax`, remainder into `rdx`.
    Idiv,
    /// `mov rax, rdx`.
    MovRaxRdx,
    /// `cmp rax, rbx`: sets the flags from `rax` and `rbx`.
    Cmp,
    /// A conditional jump to a label.
    Jump(Cond, Seq<char>),
    /// A label definition.
    Label(Seq<char>),
    /// `mov qword [rel name], rax`: stores `rax` into a variable.
    Store(Seq<char>),
}

pub open spec fn reg_name(r: Reg) -> Seq<char> {
    match r {
        Reg::Rax => "rax"@,
        Reg::Rbx => "rbx"@,
        Reg::Rdi => "rdi"@,
    }
}

/// How a conditional jump's mnemonic is written, with its indentation.
pub open spec fn jump_prefix(c: Cond) -> Seq<char> {
    match c {
        Cond::E => "    je "@,
        Cond::Ne => "    jne "@,
        Cond::L => "    jl "@,
        Cond::Le => "    jle "@,
        Cond::G => "    jg "@,
        Cond::Ge => "    jge "@,
    }
}

/// How an instruction is written, one line (with its indentation and line
/// feed) in NASM syntax.
pub open spec fn render(i: Instr) -> Seq<char> {
    match i {
        Instr::MovImm(r, v) => "    mov "@ + reg_name(r) + ", "@ + int_text(v as int) + "\n"@,
        Instr::MovArgc(r) => "    mov "@ + reg_name(r) + ", [rel argc_val]\n"@,
        Instr::MovVar(r, n) => "    mov "@ + reg_name(r) + ", qword [rel "@ + n + "]\n"@,
        Instr::PushRax => "    push rax\n"@,
        Instr::PopRax => "    pop rax\n"@,
        Instr::MovRbxRax => "    mov rbx, rax\n"@,
        Instr::Add => "    add rax, rbx\n"@,
        Instr::Sub => "    sub rax, rbx\n"@,
        Instr::Imul => "    imul rax, rbx\n"@,
        Instr::Cqo => "    cqo\n"@,
        Instr::Idiv => "    idiv rbx\n"@,
        Instr::MovRaxRdx => "    mov rax, rdx\n"@,
        Instr::Cmp => "    cmp rax, rbx\n"@,
        Instr::Jump(c, t) => jump_prefix(c) + t + "\n"@,
        Instr::Label(n) => n + ":\n"@,
        Instr::Store(n) => "    mov qword [rel "@ + n + "], rax\n"@,
    }
}

/// How a sequence of instructions is written.
pub open spec fn render_all(is: Seq<Instr>) -> Seq<char>
    decreases is.len(),
{
    if is.len() == 0 {
        Seq::empty()
    } else {
        render(is[0]) + render_all(is.drop_first())
    }
}

/// The machine's state as far as the generated code uses it: the registers,
/// the stack (its top last), the variables' memory, the saved argument count
/// and the operands of the last `cmp`.
pub struct Machine {
    pub rax: int,
    pub rbx: int,
    pub rdx: int,
    pub rdi: int,
    pub stack: Seq<int>,
    pub mem: Map<Seq<char>, int>,
    pub argc: int,
    pub flags: (int, int),
}

/// Division truncated toward zero, as `idiv` does (`0` for a zero divisor,
/// where `idiv` faults).
pub open spec fn tdiv(a: int, b: int) -> int {
    if b == 0 {
        0
    } else {
        let q = (if a < 0 { -a } else { a }) / (if b < 0 { -b } else { b });
        if (a < 0) != (b < 0) {
            -q
        } else {
            q
        }
    }
}

/// The remainder that goes with [`tdiv`]: it has the sign of `a`.
pub open spec fn trem(a: int, b: int) -> int {
    a - b * tdiv(a, b)
}

pub open spec fn set_reg(m: Machine, r: Reg, v: int) -> Machine {
    match r {
        Reg::Rax => Machine { rax: v, ..m },
        Reg::Rbx => Machine { rbx: v, ..m },
        Reg::Rdi => Machine { rdi: v, ..m },
    }
}

/// What one instruction does to the machine (jumps and labels change no
/// register; where control goes is [`taken`]'s matter).
pub open spec fn step(m: Machine, i: Instr) -> Machine {
    match i {
        Instr::MovImm(r, v) => set_reg(m, r, v as int),
        Instr::MovArgc(r) => set_reg(m, r, m.argc),
        Instr::MovVar(r, n) => set_reg(m, r, m.mem[n]),
        Instr::PushRax => Machine { stack: m.stack.push(m.rax), ..m },
        Instr::PopRax => Machine { rax: m.stack.last(), stack: m.stack.drop_last(), ..m },
        Instr::MovRbxRax => Machine { rbx: m.rax, ..m },
        Instr::Add => Machine { rax: m.rax + m.rbx, ..m },
        Instr::Sub => Machine { rax: m.rax - m.rbx, ..m },
        Instr::Imul => Machine { rax: m.rax * m.rbx, ..m },
        Instr::Cqo => m,
        Instr::Idiv => Machine { rax: tdiv(m.rax, m.rbx), rdx: trem(m.rax, m.rbx), ..m },
        Instr::MovRaxRdx => Machine { rax: m.rdx, ..m },
        Instr::Cmp => Machine { flags: (m.rax, m.rbx), ..m },
        Instr::Jump(_, _) => m,
        Instr::Label(_) => m,
        Instr::Store(n) => Machine { mem: m.mem.insert(n, m.rax), ..m },
    }
}

/// What a sequence of instructions does, run in order.
pub open spec fn run(m: Machine, is: Seq<Instr>) -> Machine
    decreases is.len(),
{
    if is.len() == 0 {
        m
    } else {
        run(step(m, is[0]), is.drop_first())
    }
}

/// Whether a conditional jump is taken after `cmp a, b`.
pub open spec fn taken(c: Cond, a: int, b: int) -> bool {
    match c {
        Cond::E => a == b,
        Cond::Ne => a != b,
        Cond::L => a < b,
        Cond::Le => a <= b,
        Cond::G => a > b,
        Cond::Ge => a >= b,
    }
}

/// Whether `a op b` holds.
pub open spec fn holds(op: CompOp, a: int, b: int) -> bool {
    match op {
        CompOp::Eq => a == b,
        CompOp::NotEq => a != b,
        CompOp::Less => a < b,
        CompOp::LessEq => a <= b,
        CompOp::Greater => a > b,
        CompOp::GreaterEq => a >= b,
    }
}

/// A jump condition that is taken exactly when `op` fails.
pub open spec fn exits_when_false(c: Cond, op: CompOp) -> bool {
    forall|a: int, b: int| #[trigger] taken(c, a, b) == !holds(op, a, b)
}

/// The value of a term on the machine.
pub open spec fn term_value(t: SpecTerm, m: Machine) -> int {
    match t {
        SpecTerm::Number(v) => v as int,
        SpecTerm::Variable(n) => m.mem[n],
        SpecTerm::ArgC => m.argc,
    }
}

/// The value of an expression: left operand combined with right operand.
pub open spec fn value(e: SpecExpr, m: Machine) -> int
    decreases e,
{
    match e {
        SpecExpr::Term(t) => term_value(t, m),
        SpecExpr::Binary(l, op, r) => {
            let a = value(*l, m);
            let b = value(*r, m);
            match op {
                MathOp::Add => a + b,
                MathOp::Sub => a - b,
                MathOp::Mul => a * b,
                MathOp::Div => tdiv(a, b),
                MathOp::Mod => trem(a, b),
            }
        },
    }
}

/// The instruction that loads a term into a register.
pub open spec fn load(t: SpecTerm, r: Reg) -> Instr {
    match t {
        SpecTerm::Number(v) => Instr::MovImm(r, v),
        SpecTerm::ArgC => Instr::MovArgc(r),
        SpecTerm::Variable(n) => Instr::MovVar(r, n),
    }
}

pub proof fn lemma_render_concat(a: Seq<Instr>, b: Seq<Instr>)
    ensures
        render_all(a + b) == render_all(a) + render_all(b),
    decreases a.len(),
{
    if a.len() == 0 {
        assert(a + b =~= b);
    } else {
        assert((a + b).drop_first() =~= a.drop_first() + b);
        lemma_render_concat(a.drop_first(), b);
        assert(render_all(a + b) =~= render_all(a) + render_all(b));
    }
}

pub proof fn lemma_run_concat(m: Machine, a: Seq<Instr>, b: Seq<Instr>)
    ensures
        run(m, a + b) == run(run(m, a), b),
    decreases a.len(),
{
    if a.len() == 0 {
        assert(a + b =~= b);
    } else {
        assert((a + b).drop_first() =~= a.drop_first() + b);
        lemma_run_concat(step(m, a[0]), a.drop_first(), b);
    }
}

pub proof fn lemma_render_one(i: Instr)
    ensures
        render_all(seq![i]) == render(i),
{
    let e = Seq::<Instr>::empty();
    assert(seq![i].drop_first() =~= e);
    assert(render_all(e) == Seq::<char>::empty());
    assert(seq![i][0] == i);
    assert(render(i) + Seq::<char>::empty() =~= render(i));
}

pub proof fn lemma_run_one(m: Machine, i: Instr)
    ensures
        run(m, seq![i]) == step(m, i),
{
    let e = Seq::<Instr>::empty();
    assert(seq![i].drop_first() =~= e);
    assert(run(step(m, i), e) == step(m, i));
    assert(seq![i][0] == i);
}

/// Loading a term writes the text the generator writes for it.
pub proof fn lemma_load_render(t: SpecTerm, r: Reg)
    ensures
        render(load(t, r)) == load_code(t, reg_name(r)),
{
}

/// The instructions that combine `rax` and `rbx` for an operator.
pub open spec fn op_instrs(op: MathOp) -> Seq<Instr> {
    match op {
        MathOp::Add => seq![Instr::Add],
        MathOp::Sub => seq![Instr::Sub],
        MathOp::Mul => seq![Instr::Imul],
        MathOp::Div => seq![Instr::Cqo, Instr::Idiv],
        MathOp::Mod => seq![Instr::Cqo, Instr::Idiv, Instr::MovRaxRdx],
    }
}

/// The instruction sequence whose text is the generator's code for `e`.
pub open spec fn expr_instrs(e: SpecExpr) -> Seq<Instr>
    decreases e,
{
    match e {
        SpecExpr::Term(t) => seq![load(t, Reg::Rax)],
        SpecExpr::Binary(l, op, r) => expr_instrs(*l) + seq![Instr::PushRax] + expr_instrs(*r)
            + seq![Instr::MovRbxRax, Instr::PopRax] + op_instrs(op),
    }
}

proof fn lemma_op_instrs(op: MathOp, m: Machine)
    ensures
        render_all(op_instrs(op)) == op_code(op),
        run(m, op_instrs(op)).rax == match op {
            MathOp::Add => m.rax + m.rbx,
            MathOp::Sub => m.rax - m.rbx,
            MathOp::Mul => m.rax * m.rbx,
            MathOp::Div => tdiv(m.rax, m.rbx),
            MathOp::Mod => trem(m.rax, m.rbx),
        },
        run(m, op_instrs(op)).stack == m.stack,
        run(m, op_instrs(op)).mem == m.mem,
        run(m, op_instrs(op)).argc == m.argc,
{
    reveal_strlit("    cqo\n");
    reveal_strlit("    idiv rbx\n");
    reveal_strlit("    mov rax, rdx\n");
    reveal_strlit("    cqo\n    idiv rbx\n");
    reveal_strlit("    cqo\n    idiv rbx\n    mov rax, rdx\n");
    let is = op_instrs(op);
    reveal_with_fuel(render_all, 4);
    reveal_with_fuel(run, 4);
    assert(render_all(is) =~= op_code(op));
}

/// An expression's value depends on the memory and the argument count only.
proof fn lemma_value_frame(e: SpecExpr, m: Machine, n: Machine)
    requires
        m.mem == n.mem,
        m.argc == n.argc,
    ensures
        value(e, m) == value(e, n),
    decreases e,
{
    match e {
        SpecExpr::Term(_) => {},
        SpecExpr::Binary(l, _, r) => {
            lemma_value_frame(*l, m, n);
            lemma_value_frame(*r, m, n);
        },
    }
}

proof fn lemma_expr_instrs(e: SpecExpr, m: Machine)
    ensures
        render_all(expr_instrs(e)) == expr_code(e),
        run(m, expr_instrs(e)).rax == value(e, m),
        run(m, expr_instrs(e)).stack == m.stack,
        run(m, expr_instrs(e)).mem == m.mem,
        run(m, expr_instrs(e)).argc == m.argc,
    decreases e,
{
    match e {
        SpecExpr::Term(t) => {
            lemma_render_one(load(t, Reg::Rax));
            lemma_run_one(m, load(t, Reg::Rax));
        },
        SpecExpr::Binary(l, op, r) => {
            let pl = expr_instrs(*l);
            let pr = expr_instrs(*r);
            let tail = seq![Instr::MovRbxRax, Instr::PopRax];
            let po = op_instrs(op);
            lemma_expr_instrs(*l, m);
            let m1 = run(m, pl);
            let m2 = step(m1, Instr::PushRax);
            lemma_expr_instrs(*r, m2);
            let m3 = run(m2, pr);
            let m4 = run(m3, tail);
            reveal_with_fuel(run, 3);
            reveal_with_fuel(render_all, 3);
            lemma_op_instrs(op, m4);
            lemma_run_one(m1, Instr::PushRax);
            lemma_render_one(Instr::PushRax);
            lemma_run_concat(m, pl, seq![Instr::PushRax]);
            lemma_run_concat(m, pl + seq![Instr::PushRax], pr);
            lemma_run_concat(m, pl + seq![Instr::PushRax] + pr, tail);
            lemma_run_concat(m, pl + seq![Instr::PushRax] + pr + tail, po);
            lemma_render_concat(pl, seq![Instr::PushRax]);
            lemma_render_concat(pl + seq![Instr::PushRax], pr);
            lemma_render_concat(pl + seq![Instr::PushRax] + pr, tail);
            lemma_render_concat(pl + seq![Instr::PushRax] + pr + tail, po);
            reveal_strlit("    mov rbx, rax\n");
            reveal_strlit("    pop rax\n");
            reveal_strlit("    mov rbx, rax\n    pop rax\n");
            assert(render_all(tail) =~= "    mov rbx, rax\n    pop rax\n"@);
            lemma_value_frame(*r, m2, m);
            assert(m4.rax == m1.rax);
            assert(m4.rbx == m3.rax);
            assert(run(m, expr_instrs(e)) == run(m4, po));
        },
    }
}

/// The code that the generator writes for an expression computes it: run
/// from any state, it leaves in `rax` the left operand combined with the
/// right one (`left - right`, `left / right`, ...), for every shape of
/// either operand, and leaves the stack, memory and argument count as they
/// were.
pub proof fn law_expression_value(e: SpecExpr, m: Machine)
    ensures
        exists|is: Seq<Instr>|
            #![trigger render_all(is)]
            render_all(is) == expr_code(e) && run(m, is).rax == value(e, m) && run(m, is).stack
                == m.stack && run(m, is).mem == m.mem,
{
    lemma_expr_instrs(e, m);
    let is = expr_instrs(e);
    assert(render_all(is) == expr_code(e));
}


/// Whether `needle` occurs in `hay`.
pub open spec fn contains(hay: Seq<char>, needle: Seq<char>) -> bool {
    exists|p: int|
        0 <= p && p + needle.len() <= hay.len() && #[trigger] hay.subrange(p, p + needle.len())
            == needle
}

/// Whether `s` ends with `x`.
pub open spec fn ends_with(s: Seq<char>, x: Seq<char>) -> bool {
    x.len() <= s.len() && s.subrange(s.len() - x.len(), s.len() as int) == x
}

proof fn lemma_contains_grows(a: Seq<char>, b: Seq<char>, x: Seq<char>)
    requires
        is_prefix(a, b),
        contains(a, x),
    ensures
        contains(b, x),
{
    let p = choose|p: int|
        0 <= p && p + x.len() <= a.len() && #[trigger] a.subrange(p, p + x.len()) == x;
    assert(b.subrange(p, p + x.len()) =~= a.subrange(p, p + x.len()));
}

proof fn lemma_contains_after(a: Seq<char>, x: Seq<char>)
    ensures
        contains(a + x, x),
{
    assert((a + x).subrange(a.len() as int, (a.len() + x.len()) as int) =~= x);
}

proof fn lemma_contains_after_end(a: Seq<char>, e: Seq<char>, x: Seq<char>)
    requires
        ends_with(a, e),
    ensures
        contains(a + x, e + x),
{
    let p = a.len() - e.len();
    assert((a + x).subrange(p, p + (e + x).len()) =~= e + x);
}

/// The condition of the jump that is taken exactly when `op` fails.
pub open spec fn exit_cond(op: CompOp) -> Cond {
    match op {
        CompOp::Eq => Cond::Ne,
        CompOp::NotEq => Cond::E,
        CompOp::Less => Cond::Ge,
        CompOp::LessEq => Cond::G,
        CompOp::Greater => Cond::Le,
        CompOp::GreaterEq => Cond::L,
    }
}

proof fn lemma_exit_cond(op: CompOp)
    ensures
        exits_when_false(exit_cond(op), op),
{
}

/// The test of a condition: both terms loaded, compared, and a jump to
/// `target` on condition `c`.
pub open spec fn test_instrs(l: SpecTerm, r: SpecTerm, c: Cond, target: Seq<char>) -> Seq<Instr> {
    seq![load(l, Reg::Rax), load(r, Reg::Rbx), Instr::Cmp, Instr::Jump(c, target)]
}

proof fn lemma_test_render(l: SpecTerm, op: CompOp, r: SpecTerm, target: Seq<char>)
    ensures
        render_all(test_instrs(l, r, exit_cond(op), target)) == crate::compiler::test_code(
            l,
            op,
            r,
            target,
        ),
{
    let i1 = load(l, Reg::Rax);
    let i2 = load(r, Reg::Rbx);
    let i4 = Instr::Jump(exit_cond(op), target);
    let is = test_instrs(l, r, exit_cond(op), target);
    assert(is =~= seq![i1] + seq![i2] + seq![Instr::Cmp] + seq![i4]);
    lemma_render_concat(seq![i1] + seq![i2] + seq![Instr::Cmp], seq![i4]);
    lemma_render_concat(seq![i1] + seq![i2], seq![Instr::Cmp]);
    lemma_render_concat(seq![i1], seq![i2]);
    lemma_render_one(i1);
    lemma_render_one(i2);
    lemma_render_one(Instr::Cmp);
    lemma_render_one(i4);
    lemma_load_render(l, Reg::Rax);
    lemma_load_render(r, Reg::Rbx);
    assert(render(i4) == crate::compiler::jump_code(op, target));
    assert(render_all(is) =~= crate::compiler::test_code(l, op, r, target));
}

/// The label of arm `k` (counted from 1) of the `if` statement numbered `id`.
pub open spec fn arm_label(id: nat, k: nat) -> Seq<char> {
    ".L_br_"@ + decimal(id) + "_"@ + decimal(k)
}

/// The label that ends the `if` statement numbered `id`.
pub open spec fn if_end(id: nat) -> Seq<char> {
    ".L_if_end_"@ + decimal(id)
}

/// Where arm `k` of an `if` statement with `n` arms goes when its test
/// fails: the next arm, or, after the last arm, the `else` block when there
/// is one, else the end of the statement.
pub open spec fn failed_arm_target(id: nat, k: nat, n: nat, has_else: bool) -> Seq<char> {
    if k + 1 < n || has_else {
        arm_label(id, k + 1)
    } else {
        if_end(id)
    }
}

/// The code of arm `k` of an `if` statement: its label (from the second arm
/// on), then its test, which jumps on condition `c`.
pub open spec fn arm_head(id: nat, k: nat, b: SpecIfBranch, n: nat, has_else: bool, c: Cond) -> Seq<Instr> {
    (if k > 0 {
        seq![Instr::Label(arm_label(id, k))]
    } else {
        Seq::empty()
    }) + test_instrs(b.left, b.right, c, failed_arm_target(id, k, n, has_else))
}

proof fn lemma_arm_head_render(id: nat, k: nat, b: SpecIfBranch, n: nat, has_else: bool)
    ensures
        render_all(arm_head(id, k, b, n, has_else, exit_cond(b.op))) == (if k > 0 {
            arm_label(id, k) + ":\n"@
        } else {
            Seq::<char>::empty()
        }) + crate::compiler::test_code(
            b.left,
            b.op,
            b.right,
            failed_arm_target(id, k, n, has_else),
        ),
{
    let t = test_instrs(b.left, b.right, exit_cond(b.op), failed_arm_target(id, k, n, has_else));
    let h: Seq<Instr> = if k > 0 {
        seq![Instr::Label(arm_label(id, k))]
    } else {
        Seq::empty()
    };
    lemma_render_concat(h, t);
    lemma_test_render(b.left, b.op, b.right, failed_arm_target(id, k, n, has_else));
    if k > 0 {
        lemma_render_one(Instr::Label(arm_label(id, k)));
    } else {
        assert(render_all(h) == Seq::<char>::empty());
    }
    assert(Seq::<char>::empty() + crate::compiler::test_code(
        b.left,
        b.op,
        b.right,
        failed_arm_target(id, k, n, has_else),
    ) =~= crate::compiler::test_code(
        b.left,
        b.op,
        b.right,
        failed_arm_target(id, k, n, has_else),
    ));
}

proof fn lemma_branches_contain(
    st: CompilerModel,
    bs: Seq<SpecIfBranch>,
    i: int,
    id: nat,
    no_else: bool,
    m: bool,
    k: int,
)
    requires
        0 <= i <= k < bs.len(),
        i > 0 ==> ends_with(st.text, arm_label(id, i as nat) + ":\n"@),
    ensures
        contains(
            compile_branches(st, bs, i, id, no_else, m).text,
            render_all(arm_head(id, k as nat, bs[k], bs.len(), !no_else, exit_cond(bs[k].op))),
        ),
    decreases k - i,
{
    let b = bs[i];
    let next = crate::compiler::branch_label(id, (i + 1) as nat);
    let target = if i == bs.len() - 1 && no_else {
        crate::compiler::if_end_label(id)
    } else {
        next
    };
    assert(target == failed_arm_target(id, i as nat, bs.len(), !no_else));
    let test = crate::compiler::test_code(b.left, b.op, b.right, target);
    let st1 = st.emit(test);
    let st2 = compile_nodes(st1, b.block, 0, m);
    let st3 = st2.emit("    jmp "@ + crate::compiler::if_end_label(id) + "\n"@ + next + ":\n"@);
    lemma_compile_nodes(st1, b.block, 0, m);
    lemma_compile_branches(st3, bs, i + 1, id, no_else, m);
    let fin = compile_branches(st, bs, i, id, no_else, m);
    assert(fin == compile_branches(st3, bs, i + 1, id, no_else, m));
    assert(is_prefix(st1.text, st2.text));
    assert(is_prefix(st2.text, st3.text));
    assert(is_prefix(st3.text, fin.text));
    assert(is_prefix(st1.text, fin.text));
    if k == i {
        lemma_arm_head_render(id, i as nat, b, bs.len(), !no_else);
        if i > 0 {
            lemma_contains_after_end(st.text, arm_label(id, i as nat) + ":\n"@, test);
        } else {
            lemma_contains_after(st.text, test);
            assert(Seq::<char>::empty() + test =~= test);
        }
        lemma_contains_grows(st1.text, fin.text, render_all(
            arm_head(id, k as nat, bs[k], bs.len(), !no_else, exit_cond(bs[k].op)),
        ));
    } else {
        let tail = "    jmp "@ + crate::compiler::if_end_label(id) + "\n"@ + next + ":\n"@;
        assert(next == arm_label(id, (i + 1) as nat));
        assert(st3.text.subrange(
            st3.text.len() - (next + ":\n"@).len(),
            st3.text.len() as int,
        ) =~= next + ":\n"@);
        lemma_branches_contain(st3, bs, i + 1, id, no_else, m, k);
    }
}

/// In an `if` statement, every arm's failed test goes to the next arm: arm
/// `k`'s code is its label (from the second arm on) and a test of its two
/// terms that jumps exactly when its comparison fails, to the next arm's
/// label, or, for the last arm, to the `else` block or, without one, to the
/// statement's end label.
pub proof fn law_if_arms(
    st: CompilerModel,
    bs: Seq<SpecIfBranch>,
    else_block: Seq<SpecNode>,
    m: bool,
    k: int,
)
    requires
        0 <= k < bs.len(),
    ensures
        exists|c: Cond|
            #![trigger exits_when_false(c, bs[k].op)]
            exits_when_false(c, bs[k].op) && contains(
                compile_node(st, SpecNode::IfStatement { branches: bs, else_block }, m).text,
                render_all(
                    arm_head(st.if_count, k as nat, bs[k], bs.len(), else_block.len() > 0, c),
                ),
            ),
{
    let id = st.if_count;
    let st1 = CompilerModel { if_count: st.if_count + 1, ..st };
    let no_else = else_block.len() == 0;
    lemma_branches_contain(st1, bs, 0, id, no_else, m, k);
    let st2 = compile_branches(st1, bs, 0, id, no_else, m);
    let st3 = if else_block.len() != 0 {
        compile_nodes(st2, else_block, 0, m)
    } else {
        st2
    };
    if else_block.len() != 0 {
        lemma_compile_nodes(st2, else_block, 0, m);
    }
    let fin = compile_node(st, SpecNode::IfStatement { branches: bs, else_block }, m);
    assert(fin == st3.emit(crate::compiler::if_end_label(id) + ":\n"@));
    assert(is_prefix(st3.text, fin.text));
    assert(is_prefix(st2.text, fin.text));
    let c = exit_cond(bs[k].op);
    lemma_exit_cond(bs[k].op);
    lemma_contains_grows(st2.text, fin.text, render_all(
        arm_head(id, k as nat, bs[k], bs.len(), !no_else, c),
    ));
}

/// A `while` loop starts with its label and a test of its two terms that
/// jumps to its end label exactly when its comparison fails (for `<=`, when
/// left > right), and closes with a jump back to its start followed by the
/// end label.
pub proof fn law_while_loop(
    st: CompilerModel,
    l: SpecTerm,
    op: CompOp,
    r: SpecTerm,
    body: Seq<SpecNode>,
    m: bool,
)
    ensures
        ({
            let fin = compile_node(st, SpecNode::WhileStatement(l, op, r, body), m);
            let start = ".L_wh_s_"@ + decimal(st.while_count);
            let end = ".L_wh_e_"@ + decimal(st.while_count);
            &&& exists|c: Cond|
                #![trigger test_instrs(l, r, c, end)]
                exits_when_false(c, op) && is_prefix(
                    st.text + render_all(seq![Instr::Label(start)] + test_instrs(l, r, c, end)),
                    fin.text,
                )
            &&& ends_with(fin.text, "    jmp "@ + start + "\n"@ + end + ":\n"@)
        }),
{
    let start = ".L_wh_s_"@ + decimal(st.while_count);
    let end = ".L_wh_e_"@ + decimal(st.while_count);
    let c = exit_cond(op);
    lemma_exit_cond(op);
    let st1 = CompilerModel { while_count: st.while_count + 1, ..st }.emit(
        start + ":\n"@ + crate::compiler::test_code(l, op, r, end),
    );
    lemma_compile_nodes(st1, body, 0, m);
    let st2 = compile_nodes(st1, body, 0, m);
    let tail = "    jmp "@ + start + "\n"@ + end + ":\n"@;
    let fin = compile_node(st, SpecNode::WhileStatement(l, op, r, body), m);
    assert(fin == st2.emit(tail));
    lemma_render_concat(seq![Instr::Label(start)], test_instrs(l, r, c, end));
    lemma_render_one(Instr::Label(start));
    lemma_test_render(l, op, r, end);
    assert(st.text + render_all(seq![Instr::Label(start)] + test_instrs(l, r, c, end)) =~= st1.text);
    assert(is_prefix(st1.text, fin.text));
    assert(fin.text.subrange(fin.text.len() - tail.len(), fin.text.len() as int) =~= tail);
}


/// The storage line a variable gets: a zeroed quadword in `.data` for a
/// module, a reserved quadword in `.bss` for a program.
pub open spec fn storage_line(name: Seq<char>, module: bool) -> Seq<char> {
    if module {
        "    "@ + name + " dq 0\n"@
    } else {
        "    "@ + name + " resq 1\n"@
    }
}

/// Every variable the generator knows has its storage line in the section
/// that holds it.
pub open spec fn stored(st: CompilerModel, module: bool) -> bool {
    forall|n: Seq<char>|
        #[trigger] st.vars.contains(n) ==> contains(
            if module {
                st.data
            } else {
                st.bss
            },
            storage_line(n, module),
        )
}

/// A new generator knows no variable, so all it knows are stored.
pub proof fn law_initial_stored(module: bool)
    ensures
        stored(crate::compiler::initial_model(module), module),
{
}

/// The variable a statement stores into, if it stores into one.
pub open spec fn written_variable(n: SpecNode) -> Option<Seq<char>> {
    match n {
        SpecNode::VarDeclaration(name, _) => Some(name),
        SpecNode::Assignment(name, _) => Some(name),
        SpecNode::InputStatement(name) => Some(name),
        _ => None,
    }
}

/// A statement that stores into a variable (`let`, an assignment, `input`)
/// leaves it known to the generator with its storage line, in `.bss` for a
/// program and in `.data` for a module; and every variable stored before is
/// still stored.
pub proof fn law_written_variable_stored(st: CompilerModel, n: SpecNode, module: bool)
    requires
        stored(st, module),
        written_variable(n) is Some,
    ensures
        compile_node(st, n, module).vars.contains(written_variable(n)->Some_0),
        stored(compile_node(st, n, module), module),
{
    let name = written_variable(n)->Some_0;
    let d = st.declare(name, module);
    let fin = compile_node(st, n, module);
    assert(fin.vars == d.vars && fin.data == d.data && fin.bss == d.bss);
    if !st.vars.contains(name) {
        let sec = if module {
            st.data
        } else {
            st.bss
        };
        let nsec = if module {
            d.data
        } else {
            d.bss
        };
        assert(nsec =~= sec + storage_line(name, module));
        let pre = sec;
        assert(is_prefix(pre, nsec));
        lemma_contains_after(sec, storage_line(name, module));
        assert forall|v: Seq<char>| #[trigger] fin.vars.contains(v) implies contains(
            if module {
                fin.data
            } else {
                fin.bss
            },
            storage_line(v, module),
        ) by {
            if v != name {
                lemma_contains_grows(sec, nsec, storage_line(v, module));
            }
        }
    }
}


/// A `let` with a value, or an assignment, appends code that sets the
/// variable to the value of its expression, computed on the state before,
/// and changes no other variable; the stack is as before.
pub proof fn law_store_value(st: CompilerModel, n: SpecNode, module: bool, m: Machine)
    requires
        n is Assignment || (n matches SpecNode::VarDeclaration(_, Some(_))),
    ensures
        ({
            let (x, e) = match n {
                SpecNode::Assignment(x, e) => (x, e),
                SpecNode::VarDeclaration(x, Some(e)) => (x, e),
                _ => (Seq::empty(), SpecExpr::Term(SpecTerm::ArgC)),
            };
            exists|is: Seq<Instr>|
                #![trigger render_all(is)]
                compile_node(st, n, module).text == st.text + render_all(is) && run(m, is).mem
                    == m.mem.insert(x, value(e, m)) && run(m, is).stack == m.stack
        }),
{
    let (x, e) = match n {
        SpecNode::Assignment(x, e) => (x, e),
        SpecNode::VarDeclaration(x, Some(e)) => (x, e),
        _ => (Seq::empty(), SpecExpr::Term(SpecTerm::ArgC)),
    };
    lemma_expr_instrs(e, m);
    let pe = expr_instrs(e);
    let is = pe + seq![Instr::Store(x)];
    lemma_render_concat(pe, seq![Instr::Store(x)]);
    lemma_render_one(Instr::Store(x));
    lemma_run_concat(m, pe, seq![Instr::Store(x)]);
    lemma_run_one(run(m, pe), Instr::Store(x));
    assert(render(Instr::Store(x)) == store_code(x));
    assert(compile_node(st, n, module).text == st.text + render_all(is));
}

/// `exit` appends code that loads its term's value into `rdi` (the exit
/// status) and then makes the `exit` system call (number 60 in `rax`).
pub proof fn law_exit_status(st: CompilerModel, t: SpecTerm, module: bool, m: Machine)
    ensures
        exists|is: Seq<Instr>|
            #![trigger render_all(is)]
            compile_node(st, SpecNode::ExitStatement(t), module).text == st.text + render_all(is)
                + "    mov rax, 60\n    syscall\n"@ && run(m, is).rdi == term_value(t, m),
{
    let is = seq![load(t, Reg::Rdi)];
    lemma_render_one(load(t, Reg::Rdi));
    lemma_run_one(m, load(t, Reg::Rdi));
    lemma_load_render(t, Reg::Rdi);
    assert(compile_node(st, SpecNode::ExitStatement(t), module).text =~= st.text + render_all(is)
        + "    mov rax, 60\n    syscall\n"@);
}

/// Printing a term appends code that loads its value into `rax` and calls
/// the routine that prints `rax`, then, for `println`, the one that prints a
/// line feed.
pub proof fn law_print_value(st: CompilerModel, t: SpecTerm, newline: bool, module: bool, m: Machine)
    ensures
        exists|is: Seq<Instr>|
            #![trigger render_all(is)]
            compile_node(st, SpecNode::PrintVar(t, newline), module).text == st.text + render_all(
                is,
            ) + "    call _print_rax\n"@ + (if newline {
                "    call _print_newline\n"@
            } else {
                Seq::<char>::empty()
            }) && run(m, is).rax == term_value(t, m),
{
    let is = seq![load(t, Reg::Rax)];
    lemma_render_one(load(t, Reg::Rax));
    lemma_run_one(m, load(t, Reg::Rax));
    lemma_load_render(t, Reg::Rax);
    assert(compile_node(st, SpecNode::PrintVar(t, newline), module).text =~= st.text
        + render_all(is) + "    call _print_rax\n"@ + (if newline {
        "    call _print_newline\n"@
    } else {
        Seq::<char>::empty()
    }));
}

/// An `if` statement's code closes with its end label, which every arm's
/// jump past the rest and the last arm's failed test (without `else`) go to.
pub proof fn law_if_end(st: CompilerModel, bs: Seq<SpecIfBranch>, else_block: Seq<SpecNode>, m: bool)
    ensures
        ends_with(
            compile_node(st, SpecNode::IfStatement { branches: bs, else_block }, m).text,
            if_end(st.if_count) + ":\n"@,
        ),
{
    let fin = compile_node(st, SpecNode::IfStatement { branches: bs, else_block }, m);
    let tail = if_end(st.if_count) + ":\n"@;
    assert(fin.text.subrange(fin.text.len() - tail.len(), fin.text.len() as int) =~= tail);
}

} // verus!
