//! Code generation: from a program's statements to NASM assembly text for
//! x86_64 Linux. The generator keeps three sections (`.bss`, `.data`,
//! `.text`), counters that number the labels of strings, `if` and `while`
//! statements, and the set of variables that already have storage.

use vstd::prelude::*;
use vstd::utf8::encode_utf8;

use crate::ast::{
    branch_view, branches_view, lemma_branch_block, lemma_if_parts, lemma_while_parts, nodes_view,
    CompOp, Expression, MathOp, Node, SpecExpr, SpecIfBranch, SpecNode, SpecTerm, Term,
};
use crate::text::{
    decimal, int_text, join_decimals, push_decimal, push_i32, push_joined_decimals, push_usize,
};

verus! {

broadcast use vstd::string::group_string_axioms;

/// The runtime routines appended to every program: printing, reading an
/// integer, and loading a module into executable memory.
pub const STDLIB_ASM: &'static str = r#"
_print_rax:
    test rax, rax
    jns ._print_positive
    push rax
    mov rax, 1
    mov rdi, 1
    lea rsi, [rel minus_sign]
    mov rdx, 1
    syscall
    pop rax
    neg rax
._print_positive:
    lea rcx, [rel digit_space]
    mov rbx, 10
    mov [rcx], rbx
    inc rcx
    mov [rel digit_space_pos], rcx
_print_rax_loop:
    mov rdx, 0
    mov rbx, 10
    div rbx
    push rax
    add rdx, 48
    mov rcx, [rel digit_space_pos]
    mov [rcx], dl
    inc rcx
    mov [rel digit_space_pos], rcx
    pop rax
    test rax, rax
    jnz _print_rax_loop
_print_rax_loop2:
    mov rcx, [rel digit_space_pos]
    mov rax, 1
    mov rdi, 1
    mov rsi, rcx
    mov rdx, 1
    syscall
    mov rcx, [rel digit_space_pos]
    dec rcx
    mov [rel digit_space_pos], rcx
    lea rdx, [rel digit_space]
    cmp rcx, rdx
    jge _print_rax_loop2
    ret

_print_newline:
    mov rax, 1
    mov rdi, 1
    lea rsi, [rel newline_char]
    mov rdx, 1
    syscall
    ret

_read_int:
    mov rax, 0
    mov rdi, 0
    lea rsi, [rel input_buffer]
    mov rdx, 32
    syscall
    lea rsi, [rel input_buffer]
    mov rax, 0
    mov rcx, 0
    movzx rbx, byte [rsi]
    cmp rbx, 45
    jne ._atoi_loop
    inc rcx
    inc rsi
._atoi_loop:
    movzx rbx, byte [rsi]
    cmp rbx, 10
    je ._atoi_done
    cmp rbx, 0
    je ._atoi_done
    sub rbx, 48
    imul rax, 10
    add rax, rbx
    inc rsi
    jmp ._atoi_loop
._atoi_done:
    test rcx, rcx
    jz ._atoi_ret
    neg rax
._atoi_ret:
    ret

_load_and_run:
    push rbx
    push r12
    push r13
    mov rax, 2
    mov rsi, 0
    syscall
    test rax, rax
    js .err
    mov r12, rax
    mov rax, 9
    xor rdi, rdi
    mov rsi, 4096
    mov rdx, 7
    mov r10, 34 
    mov r8, -1
    xor r9, r9
    syscall
    mov r13, rax
    mov rdi, r12
    mov rsi, r13
    mov rdx, 4096
    xor rax, rax
    syscall
    mov rdi, r12
    mov rax, 3
    syscall
    call r13
    mov rdi, r13
    mov rsi, 4096
    mov rax, 11
    syscall
.err:
    pop r13
    pop r12
    pop rbx
    ret
"#;

/// The state of the generator, as mathematics: the three sections, the three
/// label counters, and the names that already have storage.
pub struct CompilerModel {
    pub bss: Seq<char>,
    pub data: Seq<char>,
    pub text: Seq<char>,
    pub str_count: nat,
    pub if_count: nat,
    pub while_count: nat,
    pub vars: Set<Seq<char>>,
}

/// How many labels of each kind a piece of program takes: one per string or
/// `exec` path, one per `if`, one per `while`.
pub struct LabelUse {
    pub strings: nat,
    pub ifs: nat,
    pub whiles: nat,
}

impl LabelUse {
    pub open spec fn zero() -> LabelUse {
        LabelUse { strings: 0, ifs: 0, whiles: 0 }
    }

    pub open spec fn plus(self, other: LabelUse) -> LabelUse {
        LabelUse {
            strings: self.strings + other.strings,
            ifs: self.ifs + other.ifs,
            whiles: self.whiles + other.whiles,
        }
    }
}

impl CompilerModel {
    /// Appends code to the text section.
    pub open spec fn emit(self, code: Seq<char>) -> CompilerModel {
        CompilerModel { text: self.text + code, ..self }
    }

    /// Gives a variable storage unless it has some: a zeroed quadword in
    /// `.data` for a module, a reserved quadword in `.bss` for a program.
    pub open spec fn declare(self, name: Seq<char>, is_module: bool) -> CompilerModel {
        if self.vars.contains(name) {
            self
        } else if is_module {
            CompilerModel {
                data: self.data + "    "@ + name + " dq 0\n"@,
                vars: self.vars.insert(name),
                ..self
            }
        } else {
            CompilerModel {
                bss: self.bss + "    "@ + name + " resq 1\n"@,
                vars: self.vars.insert(name),
                ..self
            }
        }
    }

    /// The counters leave room for `u` more labels of each kind.
    pub open spec fn has_room(self, u: LabelUse) -> bool {
        &&& self.str_count + u.strings <= usize::MAX
        &&& self.if_count + u.ifs <= usize::MAX
        &&& self.while_count + u.whiles <= usize::MAX
    }

    /// The counters have moved on by exactly `u`.
    pub open spec fn counted(self, before: CompilerModel, u: LabelUse) -> bool {
        &&& self.str_count == before.str_count + u.strings
        &&& self.if_count == before.if_count + u.ifs
        &&& self.while_count == before.while_count + u.whiles
    }
}

/// The instruction that loads a term into a register.
pub open spec fn load_code(t: SpecTerm, reg: Seq<char>) -> Seq<char> {
    match t {
        SpecTerm::Number(v) => "    mov "@ + reg + ", "@ + int_text(v as int) + "\n"@,
        SpecTerm::ArgC => "    mov "@ + reg + ", [rel argc_val]\n"@,
        SpecTerm::Variable(name) => "    mov "@ + reg + ", qword [rel "@ + name + "]\n"@,
    }
}

/// The instructions that combine `rax` (left) and `rbx` (right) into `rax`.
pub open spec fn op_code(op: MathOp) -> Seq<char> {
    match op {
        MathOp::Add => "    add rax, rbx\n"@,
        MathOp::Sub => "    sub rax, rbx\n"@,
        MathOp::Mul => "    imul rax, rbx\n"@,
        MathOp::Div => "    cqo\n    idiv rbx\n"@,
        MathOp::Mod => "    cqo\n    idiv rbx\n    mov rax, rdx\n"@,
    }
}

/// The code that evaluates an expression into `rax`, using the stack for the
/// left operand while the right one is evaluated.
pub open spec fn expr_code(e: SpecExpr) -> Seq<char>
    decreases e,
{
    match e {
        SpecExpr::Term(t) => load_code(t, "rax"@),
        SpecExpr::Binary(l, op, r) => expr_code(*l) + "    push rax\n"@ + expr_code(*r)
            + "    mov rbx, rax\n    pop rax\n"@ + op_code(op),
    }
}

/// The jump taken when the comparison `rax op rbx` fails.
pub open spec fn jump_code(op: CompOp, target: Seq<char>) -> Seq<char> {
    let prefix = match op {
        CompOp::Eq => "    jne "@,
        CompOp::NotEq => "    je "@,
        CompOp::Less => "    jge "@,
        CompOp::LessEq => "    jg "@,
        CompOp::Greater => "    jle "@,
        CompOp::GreaterEq => "    jl "@,
    };
    prefix + target + "\n"@
}

/// The code that compares two terms and jumps to `target` when `op` fails.
pub open spec fn test_code(l: SpecTerm, op: CompOp, r: SpecTerm, target: Seq<char>) -> Seq<char> {
    load_code(l, "rax"@) + load_code(r, "rbx"@) + "    cmp rax, rbx\n"@ + jump_code(op, target)
}

/// The store of `rax` into a variable.
pub open spec fn store_code(name: Seq<char>) -> Seq<char> {
    "    mov qword [rel "@ + name + "], rax\n"@
}

/// A label made of a prefix and a number.
pub open spec fn label(prefix: Seq<char>, n: nat) -> Seq<char> {
    prefix + decimal(n)
}

/// The label that ends the `if` statement numbered `id`.
pub open spec fn if_end_label(id: nat) -> Seq<char> {
    label(".L_if_end_"@, id)
}

/// The label of arm `k` (counted from 1) of the `if` statement numbered `id`.
pub open spec fn branch_label(id: nat, k: nat) -> Seq<char> {
    label(".L_br_"@, id) + "_"@ + decimal(k)
}

/// The bytes that a `print`/`println` of a string writes: its UTF-8 encoding,
/// and a line feed for `println`.
pub open spec fn print_bytes(s: Seq<char>, newline: bool) -> Seq<u8> {
    encode_utf8(s) + if newline {
        seq![10u8]
    } else {
        seq![]
    }
}

/// The operand list of a `db` directive for the given bytes (`0` for none).
pub open spec fn db_list(bs: Seq<u8>) -> Seq<char> {
    if bs.len() == 0 {
        "0"@
    } else {
        join_decimals(bs)
    }
}

/// The path that an `exec` statement loads: as written when absolute,
/// relative to the working directory otherwise.
pub open spec fn exec_path(f: Seq<char>) -> Seq<char> {
    if f.len() > 0 && f[0] == '/' {
        f
    } else {
        "./"@ + f
    }
}

/// The labels that a statement takes.
pub open spec fn node_labels(n: SpecNode) -> LabelUse
    decreases n, 0nat,
{
    match n {
        SpecNode::PrintString(_, _) => LabelUse { strings: 1, ifs: 0, whiles: 0 },
        SpecNode::ExecStatement(_) => LabelUse { strings: 1, ifs: 0, whiles: 0 },
        SpecNode::IfStatement { branches, else_block } => LabelUse { strings: 0, ifs: 1, whiles: 0 }.plus(
            branches_labels(branches, 0),
        ).plus(nodes_labels(else_block, 0)),
        SpecNode::WhileStatement(_, _, _, body) => LabelUse { strings: 0, ifs: 0, whiles: 1 }.plus(
            nodes_labels(body, 0),
        ),
        _ => LabelUse::zero(),
    }
}

/// The labels that the statements of `ns` from index `i` on take.
pub open spec fn nodes_labels(ns: Seq<SpecNode>, i: int) -> LabelUse
    decreases ns, ns.len() - i,
{
    if i < 0 || i >= ns.len() {
        LabelUse::zero()
    } else {
        node_labels(ns[i]).plus(nodes_labels(ns, i + 1))
    }
}

/// The labels that the blocks of the arms of `bs` from index `i` on take.
pub open spec fn branches_labels(bs: Seq<SpecIfBranch>, i: int) -> LabelUse
    decreases bs, bs.len() - i,
{
    if i < 0 || i >= bs.len() {
        LabelUse::zero()
    } else {
        nodes_labels(bs[i].block, 0).plus(branches_labels(bs, i + 1))
    }
}

/// What compiling one statement does to the generator's state.
pub open spec fn compile_node(st: CompilerModel, n: SpecNode, m: bool) -> CompilerModel
    decreases n, 0nat,
{
    match n {
        SpecNode::VarDeclaration(name, e) => {
            let st1 = st.declare(name, m);
            match e {
                Some(e) => st1.emit(expr_code(e) + store_code(name)),
                None => st1,
            }
        },
        SpecNode::Assignment(name, e) => st.declare(name, m).emit(expr_code(e) + store_code(name)),
        SpecNode::InputStatement(name) => st.declare(name, m).emit(
            "    call _read_int\n"@ + store_code(name),
        ),
        SpecNode::PrintString(s, newline) => {
            let lbl = label("str_"@, st.str_count);
            let bs = print_bytes(s, newline);
            let len: nat = if bs.len() == 0 {
                1
            } else {
                bs.len()
            };
            CompilerModel {
                str_count: st.str_count + 1,
                data: st.data + "    "@ + lbl + " db "@ + db_list(bs) + "\n"@,
                text: st.text + "    mov rax, 1\n    mov rdi, 1\n    lea rsi, [rel "@ + lbl
                    + "]\n    mov rdx, "@ + decimal(len) + "\n    syscall\n"@,
                ..st
            }
        },
        SpecNode::PrintVar(t, newline) => st.emit(
            load_code(t, "rax"@) + "    call _print_rax\n"@ + if newline {
                "    call _print_newline\n"@
            } else {
                Seq::<char>::empty()
            },
        ),
        SpecNode::ExecStatement(f) => {
            let lbl = label("file_"@, st.str_count);
            CompilerModel {
                str_count: st.str_count + 1,
                data: st.data + "    "@ + lbl + " db "@ + join_decimals(encode_utf8(exec_path(f)))
                    + ", 0\n"@,
                text: st.text + "    lea rdi, [rel "@ + lbl + "]\n    call _load_and_run\n"@,
                ..st
            }
        },
        SpecNode::ExitStatement(t) => st.emit(load_code(t, "rdi"@) + "    mov rax, 60\n    syscall\n"@),
        SpecNode::IfStatement { branches, else_block } => {
            let id = st.if_count;
            let st1 = CompilerModel { if_count: st.if_count + 1, ..st };
            let st2 = compile_branches(st1, branches, 0, id, else_block.len() == 0, m);
            let st3 = if else_block.len() != 0 {
                compile_nodes(st2, else_block, 0, m)
            } else {
                st2
            };
            st3.emit(if_end_label(id) + ":\n"@)
        },
        SpecNode::WhileStatement(l, op, r, body) => {
            let start = label(".L_wh_s_"@, st.while_count);
            let end = label(".L_wh_e_"@, st.while_count);
            let st1 = CompilerModel { while_count: st.while_count + 1, ..st }.emit(
                start + ":\n"@ + test_code(l, op, r, end),
            );
            let st2 = compile_nodes(st1, body, 0, m);
            st2.emit("    jmp "@ + start + "\n"@ + end + ":\n"@)
        },
    }
}

/// What compiling the statements of `ns` from index `i` on, in order, does.
pub open spec fn compile_nodes(st: CompilerModel, ns: Seq<SpecNode>, i: int, m: bool) -> CompilerModel
    decreases ns, ns.len() - i,
{
    if i < 0 || i >= ns.len() {
        st
    } else {
        compile_nodes(compile_node(st, ns[i], m), ns, i + 1, m)
    }
}

/// What compiling the arms of `bs` from index `i` on does, for the `if`
/// statement numbered `id`: each arm tests its condition and jumps to the next
/// arm when it fails (to the end of the statement for the last arm when there
/// is no `else`), runs its block, and jumps to the end.
pub open spec fn compile_branches(
    st: CompilerModel,
    bs: Seq<SpecIfBranch>,
    i: int,
    id: nat,
    no_else: bool,
    m: bool,
) -> CompilerModel
    decreases bs, bs.len() - i,
{
    if i < 0 || i >= bs.len() {
        st
    } else {
        let b = bs[i];
        let next = branch_label(id, (i + 1) as nat);
        let target = if i == bs.len() - 1 && no_else {
            if_end_label(id)
        } else {
            next
        };
        let st1 = st.emit(test_code(b.left, b.op, b.right, target));
        let st2 = compile_nodes(st1, b.block, 0, m);
        let st3 = st2.emit("    jmp "@ + if_end_label(id) + "\n"@ + next + ":\n"@);
        compile_branches(st3, bs, i + 1, id, no_else, m)
    }
}

/// The generator's state before any statement: the section headers, and for a
/// program the entry point that saves the argument count.
pub open spec fn initial_model(is_module: bool) -> CompilerModel {
    CompilerModel {
        bss: "section .bss\n    digit_space resb 100\n    digit_space_pos resb 8\n    input_buffer resb 32\n    argc_val resq 1\n"@,
        data: "section .data\n    minus_sign db 45\n    newline_char db 10\n"@,
        text: "[bits 64]\ndefault rel\nsection .text\n"@ + if is_module {
            ""@
        } else {
            "global _start\n_start:\n    mov rax, [rsp]\n    mov [rel argc_val], rax\n"@
        },
        str_count: 0,
        if_count: 0,
        while_count: 0,
        vars: Set::empty(),
    }
}

/// The assembly that a generator in state `st` produces for the statements
/// `ns`: the text section with a closing return (module) or exit (program)
/// and the runtime routines, then the data section, then the bss section.
pub open spec fn generated(st: CompilerModel, ns: Seq<SpecNode>, is_module: bool) -> Seq<char> {
    let fin = compile_nodes(st, ns, 0, is_module);
    let ending = if is_module {
        "    ret\n"@
    } else {
        "    mov rax, 60\n    mov rdi, 0\n    syscall\n"@
    };
    fin.text + ending + STDLIB_ASM@ + "\n"@ + fin.data + "\n"@ + fin.bss
}

/// The code generator.
pub struct Compiler {
    bss: String,
    data: String,
    text: String,
    str_count: usize,
    if_count: usize,
    while_count: usize,
    vars: Vec<String>,
}

impl View for Compiler {
    type V = CompilerModel;

    closed spec fn view(&self) -> CompilerModel {
        CompilerModel {
            bss: self.bss@,
            data: self.data@,
            text: self.text@,
            str_count: self.str_count as nat,
            if_count: self.if_count as nat,
            while_count: self.while_count as nat,
            vars: Set::new(
                |s: Seq<char>| exists|j: int| 0 <= j < self.vars@.len() && #[trigger] self.vars@[j]@ == s,
            ),
        }
    }
}

fn make_label(prefix: &str, n: usize) -> (r: String)
    ensures
        r@ == label(prefix@, n as nat),
{
    let mut r = String::new();
    r.append(prefix);
    push_usize(&mut r, n);
    assert(r@ =~= label(prefix@, n as nat));
    r
}

impl Compiler {
    /// A generator with empty sections, for a module or for a program.
    pub fn new(is_module: bool) -> (c: Self)
        ensures
            c@ == initial_model(is_module),
    {
        let entry = if is_module {
            ""
        } else {
            "global _start\n_start:\n    mov rax, [rsp]\n    mov [rel argc_val], rax\n"
        };
        let mut text = String::new();
        text.append("[bits 64]\ndefault rel\nsection .text\n");
        text.append(entry);
        let mut bss = String::new();
        bss.append("section .bss\n    digit_space resb 100\n    digit_space_pos resb 8\n    input_buffer resb 32\n    argc_val resq 1\n");
        let mut data = String::new();
        data.append("section .data\n    minus_sign db 45\n    newline_char db 10\n");
        let c = Compiler {
            bss,
            data,
            text,
            str_count: 0,
            if_count: 0,
            while_count: 0,
            vars: Vec::new(),
        };
        assert(c@.vars =~= Set::<Seq<char>>::empty());
        assert(c@.text =~= initial_model(is_module).text);
        assert(c@.bss =~= initial_model(is_module).bss);
        assert(c@.data =~= initial_model(is_module).data);
        c
    }

    fn emit(&mut self, code: &str)
        ensures
            final(self)@ == old(self)@.emit(code@),
    {
        self.text.append(code);
        assert(self@.vars =~= old(self)@.vars);
    }

    /// Gives a variable storage the first time it is seen.
    fn ensure_var(&mut self, name: &String, is_module: bool)
        ensures
            final(self)@ == old(self)@.declare(name@, is_module),
    {
        let n = self.vars.len();
        let mut i: usize = 0;
        let mut found = false;
        while i < n && !found
            invariant
                n == self.vars@.len(),
                i <= n,
                found ==> i < n && self.vars@[i as int]@ == name@,
                forall|j: int| 0 <= j < i ==> self.vars@[j]@ != name@,
            decreases n - i + if found {
                0int
            } else {
                1int
            },
        {
            if self.vars[i] == *name {
                found = true;
            } else {
                i = i + 1;
            }
        }
        if found {
            assert(old(self)@.vars.contains(name@));
            return;
        }
        assert(!old(self)@.vars.contains(name@));
        let ghost old_vars = self.vars@;
        self.vars.push(name.clone());
        if is_module {
            self.data.append("    ");
            self.data.append(name.as_str());
            self.data.append(" dq 0\n");
        } else {
            self.bss.append("    ");
            self.bss.append(name.as_str());
            self.bss.append(" resq 1\n");
        }
        proof {
            assert forall|s: Seq<char>| #[trigger] self@.vars.contains(s) == old(self)@.vars.insert(name@).contains(s) by {
                if s == name@ {
                    assert(self.vars@[n as int]@ == s);
                }
                if old(self)@.vars.contains(s) {
                    let j = choose|j: int| 0 <= j < old_vars.len() && #[trigger] old_vars[j]@ == s;
                    assert(self.vars@[j]@ == s);
                }
                if self@.vars.contains(s) {
                    let j = choose|j: int| 0 <= j < self.vars@.len() && #[trigger] self.vars@[j]@ == s;
                    if j < n {
                        assert(old_vars[j]@ == s);
                    }
                }
            }
            assert(self@.vars =~= old(self)@.vars.insert(name@));
            assert(self@.bss =~= old(self)@.declare(name@, is_module).bss);
            assert(self@.data =~= old(self)@.declare(name@, is_module).data);
        }
    }

    /// The instruction that loads `term` into the register `reg`.
    fn load_term(&self, term: &Term, reg: &str) -> (code: String)
        ensures
            code@ == load_code(term@, reg@),
    {
        let mut code = String::new();
        code.append("    mov ");
        code.append(reg);
        match term {
            Term::Number(val) => {
                code.append(", ");
                push_i32(&mut code, *val);
                code.append("\n");
            },
            Term::ArgC => {
                code.append(", [rel argc_val]\n");
            },
            Term::Variable(name) => {
                code.append(", qword [rel ");
                code.append(name.as_str());
                code.append("]\n");
            },
        }
        assert(code@ =~= load_code(term@, reg@));
        code
    }

    /// The code that evaluates `expr` into `rax`.
    fn eval_expr(&self, expr: &Expression) -> (code: String)
        ensures
            code@ == expr_code(expr@),
        decreases expr,
    {
        match expr {
            Expression::Term(term) => self.load_term(term, "rax"),
            Expression::Binary(left, op, right) => {
                let mut code = self.eval_expr(left);
                code.append("    push rax\n");
                let r = self.eval_expr(right);
                code.append(r.as_str());
                code.append("    mov rbx, rax\n    pop rax\n");
                match op {
                    MathOp::Add => code.append("    add rax, rbx\n"),
                    MathOp::Sub => code.append("    sub rax, rbx\n"),
                    MathOp::Mul => code.append("    imul rax, rbx\n"),
                    MathOp::Div => code.append("    cqo\n    idiv rbx\n"),
                    MathOp::Mod => code.append("    cqo\n    idiv rbx\n    mov rax, rdx\n"),
                }
                assert(code@ =~= expr_code(expr@));
                code
            },
        }
    }

    /// The code that compares two terms and jumps to `target` when `op` fails.
    fn test(&self, left: &Term, op: &CompOp, right: &Term, target: &String) -> (code: String)
        ensures
            code@ == test_code(left@, *op, right@, target@),
    {
        let mut code = self.load_term(left, "rax");
        let r = self.load_term(right, "rbx");
        code.append(r.as_str());
        code.append("    cmp rax, rbx\n");
        match op {
            CompOp::Eq => code.append("    jne "),
            CompOp::NotEq => code.append("    je "),
            CompOp::Less => code.append("    jge "),
            CompOp::LessEq => code.append("    jg "),
            CompOp::Greater => code.append("    jle "),
            CompOp::GreaterEq => code.append("    jl "),
        }
        code.append(target.as_str());
        code.append("\n");
        assert(code@ =~= test_code(left@, *op, right@, target@));
        code
    }

    /// Compiles the statements in order.
    fn compile_nodes(&mut self, nodes: &Vec<Node>, is_module: bool)
        requires
            old(self)@.has_room(nodes_labels(nodes_view(nodes@), 0)),
        ensures
            final(self)@ == compile_nodes(old(self)@, nodes_view(nodes@), 0, is_module),
            final(self)@.counted(old(self)@, nodes_labels(nodes_view(nodes@), 0)),
        decreases nodes, 0nat,
    {
        let ghost ns = nodes_view(nodes@);
        let n = nodes.len();
        let mut i: usize = 0;
        while i < n
            invariant
                n == nodes@.len(),
                ns == nodes_view(nodes@),
                i <= n,
                compile_nodes(self@, ns, i as int, is_module) == compile_nodes(
                    old(self)@,
                    ns,
                    0,
                    is_module,
                ),
                self@.has_room(nodes_labels(ns, i as int)),
                self@.str_count + nodes_labels(ns, i as int).strings == old(self)@.str_count
                    + nodes_labels(ns, 0).strings,
                self@.if_count + nodes_labels(ns, i as int).ifs == old(self)@.if_count
                    + nodes_labels(ns, 0).ifs,
                self@.while_count + nodes_labels(ns, i as int).whiles == old(self)@.while_count
                    + nodes_labels(ns, 0).whiles,
            decreases n - i,
        {
            let node = &nodes[i];
            assert(decreases_to!(nodes => nodes@));
            assert(decreases_to!(nodes@ => nodes@[i as int]));
            self.compile_node(node, is_module);
            i = i + 1;
        }
    }

    /// Compiles one statement.
    fn compile_node(&mut self, node: &Node, is_module: bool)
        requires
            old(self)@.has_room(node_labels(node@)),
        ensures
            final(self)@ == compile_node(old(self)@, node@, is_module),
            final(self)@.counted(old(self)@, node_labels(node@)),
        decreases node, 1nat,
    {
        match node {
            Node::VarDeclaration(name, expr_opt) => {
                self.ensure_var(name, is_module);
                match expr_opt {
                    Some(expr) => {
                        let mut code = self.eval_expr(expr);
                        code.append("    mov qword [rel ");
                        code.append(name.as_str());
                        code.append("], rax\n");
                        assert(code@ =~= expr_code(expr@) + store_code(name@));
                        self.emit(code.as_str());
                    },
                    None => {},
                }
            },
            Node::Assignment(name, expr) => {
                self.ensure_var(name, is_module);
                let mut code = self.eval_expr(expr);
                code.append("    mov qword [rel ");
                code.append(name.as_str());
                code.append("], rax\n");
                assert(code@ =~= expr_code(expr@) + store_code(name@));
                self.emit(code.as_str());
            },
            Node::InputStatement(name) => {
                self.ensure_var(name, is_module);
                let mut code = String::new();
                code.append("    call _read_int\n");
                code.append("    mov qword [rel ");
                code.append(name.as_str());
                code.append("], rax\n");
                assert(code@ =~= "    call _read_int\n"@ + store_code(name@));
                self.emit(code.as_str());
            },
            Node::PrintString(text, append_newline) => {
                self.compile_print_string(text, *append_newline, is_module);
            },
            Node::PrintVar(term, append_newline) => {
                let mut code = self.load_term(term, "rax");
                code.append("    call _print_rax\n");
                if *append_newline {
                    code.append("    call _print_newline\n");
                }
                assert(code@ =~= load_code(term@, "rax"@) + "    call _print_rax\n"@ + if *append_newline {
                    "    call _print_newline\n"@
                } else {
                    Seq::<char>::empty()
                });
                self.emit(code.as_str());
            },
            Node::ExecStatement(filename) => {
                self.compile_exec(filename, is_module);
            },
            Node::ExitStatement(term) => {
                let mut code = self.load_term(term, "rdi");
                code.append("    mov rax, 60\n    syscall\n");
                self.emit(code.as_str());
            },
            Node::IfStatement { .. } => {
                self.compile_if(node, is_module);
            },
            Node::WhileStatement(..) => {
                self.compile_while(node, is_module);
            },
        }
    }

    /// Compiles `print`/`println` of a string: the bytes go to `.data` under a
    /// fresh label, and the text section writes them to standard output.
    fn compile_print_string(&mut self, text: &String, append_newline: bool, is_module: bool)
        requires
            old(self)@.str_count + 1 <= usize::MAX,
        ensures
            final(self)@ == compile_node(
                old(self)@,
                SpecNode::PrintString(text@, append_newline),
                is_module,
            ),
    {
        let lbl = make_label("str_", self.str_count);
        self.str_count = self.str_count + 1;
        let bytes = text.as_str().as_bytes();
        let ghost bs = print_bytes(text@, append_newline);
        let mut list = String::new();
        if bytes.len() == 0 && !append_newline {
            list.append("0");
            assert(bs =~= Seq::<u8>::empty());
        } else {
            push_joined_decimals(&mut list, bytes);
            if append_newline {
                if bytes.len() > 0 {
                    list.append(", ");
                }
                push_decimal(&mut list, 10);
                assert(bs.drop_last() =~= bytes@);
            } else {
                assert(bs =~= bytes@);
            }
        }
        assert(list@ =~= db_list(bs));
        let count: u128 = if append_newline {
            bytes.len() as u128 + 1
        } else {
            bytes.len() as u128
        };
        let len: u128 = if count == 0 {
            1
        } else {
            count
        };
        let mut line = String::new();
        line.append("    ");
        line.append(lbl.as_str());
        line.append(" db ");
        line.append(list.as_str());
        line.append("\n");
        self.data.append(line.as_str());
        let mut code = String::new();
        code.append("    mov rax, 1\n    mov rdi, 1\n    lea rsi, [rel ");
        code.append(lbl.as_str());
        code.append("]\n    mov rdx, ");
        push_decimal(&mut code, len);
        code.append("\n    syscall\n");
        self.text.append(code.as_str());
        proof {
            let spec = compile_node(old(self)@, SpecNode::PrintString(text@, append_newline), is_module);
            assert(self@.data =~= spec.data);
            assert(self@.text =~= spec.text);
            assert(self@.vars =~= spec.vars);
        }
    }

    /// Compiles `exec`: the path goes to `.data` under a fresh label, and the
    /// text section loads and runs that file.
    fn compile_exec(&mut self, filename: &String, is_module: bool)
        requires
            old(self)@.str_count + 1 <= usize::MAX,
        ensures
            final(self)@ == compile_node(old(self)@, SpecNode::ExecStatement(filename@), is_module),
    {
        let lbl = make_label("file_", self.str_count);
        self.str_count = self.str_count + 1;
        let mut it = filename.as_str().chars();
        let first = it.next();
        let absolute = match first {
            Some(c) => c == '/',
            None => false,
        };
        let mut path = String::new();
        if !absolute {
            path.append("./");
        }
        path.append(filename.as_str());
        assert(path@ =~= exec_path(filename@));
        let bytes = path.as_str().as_bytes();
        let mut line = String::new();
        line.append("    ");
        line.append(lbl.as_str());
        line.append(" db ");
        push_joined_decimals(&mut line, bytes);
        line.append(", 0\n");
        self.data.append(line.as_str());
        let mut code = String::new();
        code.append("    lea rdi, [rel ");
        code.append(lbl.as_str());
        code.append("]\n    call _load_and_run\n");
        self.text.append(code.as_str());
        proof {
            let spec = compile_node(old(self)@, SpecNode::ExecStatement(filename@), is_module);
            assert(self@.data =~= spec.data);
            assert(self@.text =~= spec.text);
            assert(self@.vars =~= spec.vars);
        }
    }

    /// Compiles an `if` statement.
    fn compile_if(&mut self, node: &Node, is_module: bool)
        requires
            node is IfStatement,
            old(self)@.has_room(node_labels(node@)),
        ensures
            final(self)@ == compile_node(old(self)@, node@, is_module),
            final(self)@.counted(old(self)@, node_labels(node@)),
        decreases node, 0nat,
    {
        match node {
            Node::IfStatement { branches, else_block } => {
                proof {
                    lemma_if_parts(*branches, *else_block);
                }
                let ghost bs = branches_view(branches@);
                let ghost es = nodes_view(else_block@);
                let id = self.if_count;
                let end_label = make_label(".L_if_end_", id);
                self.if_count = self.if_count + 1;
                let ghost st1 = self@;
                let nb = branches.len();
                let no_else = else_block.len() == 0;
                let mut idx: usize = 0;
                while idx < nb
                    invariant
                        nb == branches@.len(),
                        node is IfStatement,
                        node->IfStatement_branches == *branches,
                        bs == branches_view(branches@),
                        idx <= nb,
                        id == old(self)@.if_count,
                        no_else == (es.len() == 0),
                        es == nodes_view(else_block@),
                        end_label@ == if_end_label(id as nat),
                        compile_branches(self@, bs, idx as int, id as nat, no_else, is_module)
                            == compile_branches(st1, bs, 0, id as nat, no_else, is_module),
                        self@.has_room(branches_labels(bs, idx as int).plus(nodes_labels(es, 0))),
                        self@.str_count + branches_labels(bs, idx as int).strings == st1.str_count
                            + branches_labels(bs, 0).strings,
                        self@.if_count + branches_labels(bs, idx as int).ifs == st1.if_count
                            + branches_labels(bs, 0).ifs,
                        self@.while_count + branches_labels(bs, idx as int).whiles
                            == st1.while_count + branches_labels(bs, 0).whiles,
                    decreases nb - idx,
                {
                    let branch = &branches[idx];
                    proof {
                        lemma_branch_block(*branch);
                        assert(bs[idx as int] == branch_view(*branch));
                    }
                    let mut next = make_label(".L_br_", id);
                    next.append("_");
                    push_usize(&mut next, idx + 1);
                    assert(next@ =~= branch_label(id as nat, (idx + 1) as nat));
                    let target: &String = if idx == nb - 1 && no_else {
                        &end_label
                    } else {
                        &next
                    };
                    let code = self.test(&branch.left, &branch.op, &branch.right, target);
                    self.emit(code.as_str());
                    assert(decreases_to!(*node => *branches));
                    assert(decreases_to!(*branches => branches@[idx as int]));
                    assert(decreases_to!(branches@[idx as int] => branches@[idx as int].block));
                    self.compile_nodes(&branch.block, is_module);
                    let mut tail = String::new();
                    tail.append("    jmp ");
                    tail.append(end_label.as_str());
                    tail.append("\n");
                    tail.append(next.as_str());
                    tail.append(":\n");
                    assert(tail@ =~= "    jmp "@ + if_end_label(id as nat) + "\n"@ + next@ + ":\n"@);
                    self.emit(tail.as_str());
                    idx = idx + 1;
                }
                if !no_else {
                    assert(decreases_to!(node => *else_block));
                    self.compile_nodes(else_block, is_module);
                }
                let mut fin = String::new();
                fin.append(end_label.as_str());
                fin.append(":\n");
                self.emit(fin.as_str());
            },
            _ => {},
        }
    }

    /// Compiles a `while` statement.
    fn compile_while(&mut self, node: &Node, is_module: bool)
        requires
            node is WhileStatement,
            old(self)@.has_room(node_labels(node@)),
        ensures
            final(self)@ == compile_node(old(self)@, node@, is_module),
            final(self)@.counted(old(self)@, node_labels(node@)),
        decreases node, 0nat,
    {
        match node {
            Node::WhileStatement(l, op, r, b) => {
                proof {
                    lemma_while_parts(*l, *op, *r, *b);
                }
                let start = make_label(".L_wh_s_", self.while_count);
                let end = make_label(".L_wh_e_", self.while_count);
                self.while_count = self.while_count + 1;
                let mut head = String::new();
                head.append(start.as_str());
                head.append(":\n");
                let t = self.test(l, op, r, &end);
                head.append(t.as_str());
                self.emit(head.as_str());
                assert(decreases_to!(node => *b));
                self.compile_nodes(b, is_module);
                let mut tail = String::new();
                tail.append("    jmp ");
                tail.append(start.as_str());
                tail.append("\n");
                tail.append(end.as_str());
                tail.append(":\n");
                self.emit(tail.as_str());
            },
            _ => {},
        }
    }

    /// Compiles the program and returns its assembly: the text section
    /// (closed by a return for a module, by an exit for a program, and
    /// followed by the runtime routines), then the data and bss sections.
    pub fn generate(self, nodes: Vec<Node>, is_module: bool) -> (assembly: String)
        requires
            self@.has_room(nodes_labels(nodes_view(nodes@), 0)),
        ensures
            assembly@ == generated(self@, nodes_view(nodes@), is_module),
    {
        let mut c = self;
        c.compile_nodes(&nodes, is_module);
        if is_module {
            c.text.append("    ret\n");
        } else {
            c.text.append("    mov rax, 60\n    mov rdi, 0\n    syscall\n");
        }
        c.text.append(STDLIB_ASM);
        let mut out = String::new();
        out.append(c.text.as_str());
        out.append("\n");
        out.append(c.data.as_str());
        out.append("\n");
        out.append(c.bss.as_str());
        assert(out@ =~= generated(self@, nodes_view(nodes@), is_module));
        out
    }
}

} // verus!
