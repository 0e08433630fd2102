//! Properties of the library as a whole: how much a parsed program can ask
//! of the code generator's label counters, and how the pieces fit together.

use vstd::prelude::*;

use crate::ast::{SpecIfBranch, SpecNode};
use crate::compiler::{
    branches_labels, compile_branches, compile_node, compile_nodes, generated, initial_model,
    node_labels, nodes_labels, CompilerModel, LabelUse, STDLIB_ASM,
};
use crate::lexer::{
    lemma_step_advances, lex_from, lex_spec, lex_step, LexStep, SpecToken, SpecTokenInfo,
};
use crate::parser::{
    add_tail, advance, block_tail, elif_tail, if_rest, lemma_mult_tail, lemma_skip_newlines,
    parsed_block, parsed_condition, parsed_expression, parsed_if,
    parsed_multiplicative, parsed_program, parsed_statement, parsed_term, peek, program_tail, reach, reach_tail, read, remaining, settle, skip_newlines, PState,
    Parsed,
};

verus! {

/// The number of labels of all kinds.
pub open spec fn label_total(u: LabelUse) -> nat {
    u.strings + u.ifs + u.whiles
}

/// Appending a statement adds its labels.
pub proof fn lemma_nodes_labels_push(ns: Seq<SpecNode>, n: SpecNode, i: int)
    requires
        0 <= i <= ns.len(),
    ensures
        label_total(nodes_labels(ns.push(n), i)) == label_total(nodes_labels(ns, i)) + label_total(
            node_labels(n),
        ),
    decreases ns.len() - i,
{
    if i < ns.len() {
        lemma_nodes_labels_push(ns, n, i + 1);
        assert(ns.push(n)[i] == ns[i]);
    } else {
        assert(ns.push(n)[i] == n);
        assert(nodes_labels(ns.push(n), i + 1) == LabelUse::zero());
    }
}

/// Appending an arm adds the labels of its block.
pub proof fn lemma_branches_labels_push(bs: Seq<SpecIfBranch>, b: SpecIfBranch, i: int)
    requires
        0 <= i <= bs.len(),
    ensures
        label_total(branches_labels(bs.push(b), i)) == label_total(branches_labels(bs, i))
            + label_total(nodes_labels(b.block, 0)),
    decreases bs.len() - i,
{
    if i < bs.len() {
        lemma_branches_labels_push(bs, b, i + 1);
        assert(bs.push(b)[i] == bs[i]);
    } else {
        assert(bs.push(b)[i] == b);
        assert(branches_labels(bs.push(b), i + 1) == LabelUse::zero());
    }
}

/// Parsing the rest of a sum never moves backward; it reads nothing at or
/// past the end, and otherwise stops at most one past the end (at the end,
/// when it succeeds).
pub(crate) proof fn lemma_add_tail(ts: Seq<SpecTokenInfo>, st: PState, left: crate::ast::SpecExpr)
    ensures
        add_tail(ts, st, left).state.pos >= st.pos,
        st.pos >= ts.len() ==> add_tail(ts, st, left).state.pos == st.pos,
        st.pos <= ts.len() ==> add_tail(ts, st, left).state.pos <= ts.len() + 1,
        st.pos <= ts.len() && add_tail(ts, st, left).result is Ok ==> add_tail(
            ts,
            st,
            left,
        ).state.pos <= ts.len(),
    decreases remaining(ts, st.pos),
{
    let st1 = advance(ts, st);
    match parsed_term(ts, st1).result {
        Ok(t) => lemma_mult_tail(ts, parsed_term(ts, st1).state, crate::ast::SpecExpr::Term(t)),
        Err(_) => {},
    }
    match crate::parser::add_op(peek(ts, st.pos)) {
        Some(op) => {
            let r = parsed_multiplicative(ts, st1);
            match r.result {
                Ok(right) => lemma_add_tail(
                    ts,
                    r.state,
                    crate::ast::SpecExpr::Binary(Box::new(left), op, Box::new(right)),
                ),
                Err(_) => {},
            }
        },
        None => {},
    }
}

/// Parsing an expression never moves backward; at or past the end it reads
/// one step and fails, otherwise it stops at most one past the end (at the
/// end, when it succeeds).
pub(crate) proof fn lemma_expression(ts: Seq<SpecTokenInfo>, st: PState)
    ensures
        parsed_expression(ts, st).state.pos >= st.pos,
        st.pos >= ts.len() ==> parsed_expression(ts, st).state.pos == st.pos + 1,
        st.pos <= ts.len() ==> parsed_expression(ts, st).state.pos <= ts.len() + 1,
        parsed_expression(ts, st).result is Ok ==> parsed_expression(ts, st).state.pos
            <= ts.len(),
        parsed_multiplicative(ts, st).state.pos >= st.pos,
        st.pos >= ts.len() ==> parsed_multiplicative(ts, st).state.pos == st.pos + 1,
        st.pos <= ts.len() ==> parsed_multiplicative(ts, st).state.pos <= ts.len() + 1,
        parsed_multiplicative(ts, st).result is Ok ==> parsed_multiplicative(ts, st).state.pos
            <= ts.len(),
{
    match parsed_term(ts, st).result {
        Ok(t) => {
            lemma_mult_tail(ts, parsed_term(ts, st).state, crate::ast::SpecExpr::Term(t));
            let m = parsed_multiplicative(ts, st);
            match m.result {
                Ok(e) => lemma_add_tail(ts, m.state, e),
                Err(_) => {},
            }
        },
        Err(_) => {},
    }
}

/// What every parsing function of the statement group keeps: it never moves
/// backward, nor further than [`reach`] allows.
pub open spec fn moves_on<T>(ts: Seq<SpecTokenInfo>, from: PState, r: Parsed<T>) -> bool {
    &&& r.state.pos >= from.pos
    &&& r.state.pos <= reach(ts.len(), from.pos)
}

pub(crate) proof fn lemma_block_tail(ts: Seq<SpecTokenInfo>, st: PState, acc: Seq<SpecNode>)
    ensures
        block_tail(ts, st, acc).state.pos >= st.pos,
        block_tail(ts, st, acc).state.pos <= reach_tail(ts.len(), st.pos),
        block_tail(ts, st, acc).result matches Ok(ns) ==> label_total(nodes_labels(ns, 0))
            <= label_total(nodes_labels(acc, 0)) + (read(ts.len(), block_tail(ts, st, acc).state.pos)
            - read(ts.len(), st.pos)),
    decreases remaining(ts, st.pos), 5nat,
{
    let p = skip_newlines(ts, st.pos);
    lemma_skip_newlines(ts, st.pos);
    if peek(ts, p) != Some(SpecToken::RBrace) {
        let sp = PState { pos: p, ..st };
        lemma_statement(ts, sp);
        let s = parsed_statement(ts, sp);
        match s.result {
            Ok(Some(n)) => {
                if st.pos < ts.len() && s.state.pos > st.pos {
                    lemma_block_tail(ts, s.state, acc.push(n));
                    lemma_nodes_labels_push(acc, n, 0);
                }
            },
            _ => {},
        }
    }
}

pub(crate) proof fn lemma_block(ts: Seq<SpecTokenInfo>, st: PState)
    ensures
        moves_on(ts, st, parsed_block(ts, st)),
        parsed_block(ts, st).result matches Ok(ns) ==> label_total(nodes_labels(ns, 0)) <= read(
            ts.len(),
            parsed_block(ts, st).state.pos,
        ) - read(ts.len(), st.pos),
    decreases remaining(ts, st.pos), 0nat,
{
    if peek(ts, st.pos) == Some(SpecToken::LBrace) {
        lemma_block_tail(ts, advance(ts, st), seq![]);
        assert(nodes_labels(seq![], 0) == LabelUse::zero());
    }
}

pub(crate) proof fn lemma_elif_tail(ts: Seq<SpecTokenInfo>, st: PState, acc: Seq<SpecIfBranch>)
    ensures
        elif_tail(ts, st, acc).state.pos >= st.pos,
        elif_tail(ts, st, acc).state.pos <= settle(ts.len(), st.pos),
        elif_tail(ts, st, acc).result matches Ok(bs) ==> label_total(branches_labels(bs, 0))
            <= label_total(branches_labels(acc, 0)) + (read(ts.len(), elif_tail(ts, st, acc).state.pos)
            - read(ts.len(), st.pos)),
    decreases remaining(ts, st.pos), 1nat,
{
    let p = skip_newlines(ts, st.pos);
    lemma_skip_newlines(ts, st.pos);
    let sp = PState { pos: p, ..st };
    if peek(ts, p) == Some(SpecToken::Elif) {
        let c = parsed_condition(ts, advance(ts, sp));
        match c.result {
            Ok((l, op, r)) => {
                lemma_block(ts, c.state);
                let b = parsed_block(ts, c.state);
                match b.result {
                    Ok(block) => {
                        if b.state.pos > st.pos {
                            let br = SpecIfBranch { left: l, op, right: r, block };
                            lemma_elif_tail(ts, b.state, acc.push(br));
                            lemma_branches_labels_push(acc, br, 0);
                        }
                    },
                    Err(_) => {},
                }
            },
            Err(_) => {},
        }
    }
}

pub(crate) proof fn lemma_if_rest(ts: Seq<SpecTokenInfo>, origin: PState, e: Parsed<Seq<SpecIfBranch>>)
    ensures
        if_rest(ts, origin, e).state.pos >= e.state.pos,
        if_rest(ts, origin, e).state.pos <= settle(ts.len(), e.state.pos),
        if_rest(ts, origin, e).result matches Ok(Some(n)) ==> e.result matches Ok(bs)
            && label_total(node_labels(n)) <= 1 + label_total(branches_labels(bs, 0)) + (read(
            ts.len(),
            if_rest(ts, origin, e).state.pos,
        ) - read(ts.len(), e.state.pos)),
    decreases remaining(ts, origin.pos), 2nat,
{
    match e.result {
        Ok(bs) => {
            if e.state.pos >= origin.pos {
                let q = skip_newlines(ts, e.state.pos);
                lemma_skip_newlines(ts, e.state.pos);
                let sq = PState { pos: q, ..e.state };
                if peek(ts, q) == Some(SpecToken::Else) {
                    lemma_block(ts, advance(ts, sq));
                } else {
                    assert(nodes_labels(seq![], 0) == LabelUse::zero());
                }
            }
        },
        Err(_) => {},
    }
}

pub(crate) proof fn lemma_if(ts: Seq<SpecTokenInfo>, st: PState)
    ensures
        moves_on(ts, st, parsed_if(ts, st)),
        parsed_if(ts, st).result matches Ok(Some(n)) ==> label_total(node_labels(n)) <= read(
            ts.len(),
            parsed_if(ts, st).state.pos,
        ) - read(ts.len(), st.pos),
    decreases remaining(ts, st.pos), 3nat,
{
    let c = parsed_condition(ts, st);
    match c.result {
        Ok((l, op, r)) => {
            lemma_block(ts, c.state);
            let b = parsed_block(ts, c.state);
            match b.result {
                Ok(block) => {
                    if b.state.pos >= st.pos {
                        let first = SpecIfBranch { left: l, op, right: r, block };
                        lemma_elif_tail(ts, b.state, seq![first]);
                        let e = elif_tail(ts, b.state, seq![first]);
                        lemma_if_rest(ts, st, e);
                        assert(seq![first][0] == first);
                        assert(branches_labels(seq![first], 1) == LabelUse::zero());
                    }
                },
                Err(_) => {},
            }
        },
        Err(_) => {},
    }
}

#[verifier::rlimit(50)]
pub(crate) proof fn lemma_statement(ts: Seq<SpecTokenInfo>, st: PState)
    ensures
        moves_on(ts, st, parsed_statement(ts, st)),
        parsed_statement(ts, st).result matches Ok(Some(n)) ==> label_total(node_labels(n))
            <= read(ts.len(), parsed_statement(ts, st).state.pos) - read(ts.len(), st.pos),
    decreases remaining(ts, st.pos), 4nat,
{
    let p = skip_newlines(ts, st.pos);
    lemma_skip_newlines(ts, st.pos);
    let st1 = advance(ts, PState { pos: p, ..st });
    match peek(ts, p) {
        None => {},
        Some(token) => {
            let st2 = advance(ts, st1);
            match token {
                SpecToken::Module => {
                    lemma_statement(ts, PState { module: true, ..st1 });
                },
                SpecToken::Let => {
                    lemma_expression(ts, advance(ts, st2));
                },
                SpecToken::Identifier(_) => {
                    lemma_expression(ts, st2);
                },
                SpecToken::If => {
                    lemma_if(ts, st1);
                },
                SpecToken::While => {
                    let c = parsed_condition(ts, st1);
                    match c.result {
                        Ok(_) => {
                            lemma_block(ts, c.state);
                        },
                        Err(_) => {},
                    }
                },
                _ => {},
            }
        },
    }
}

pub(crate) proof fn lemma_program_tail(ts: Seq<SpecTokenInfo>, st: PState, acc: Seq<SpecNode>)
    ensures
        program_tail(ts, st, acc).state.pos >= st.pos,
        program_tail(ts, st, acc).state.pos <= reach_tail(ts.len(), st.pos),
        program_tail(ts, st, acc).result matches Ok(ns) ==> label_total(nodes_labels(ns, 0))
            <= label_total(nodes_labels(acc, 0)) + (read(ts.len(), program_tail(ts, st, acc).state.pos)
            - read(ts.len(), st.pos)),
    decreases remaining(ts, st.pos),
{
    lemma_statement(ts, st);
    let s = parsed_statement(ts, st);
    match s.result {
        Ok(Some(n)) => {
            if st.pos < ts.len() && s.state.pos > st.pos {
                lemma_program_tail(ts, s.state, acc.push(n));
                lemma_nodes_labels_push(acc, n, 0);
            }
        },
        _ => {},
    }
}

/// A parsed program asks for no more labels than it has tokens: every
/// statement that takes a label reads at least one token of its own.
pub proof fn lemma_program_labels(ts: Seq<SpecTokenInfo>, st: PState)
    ensures
        parsed_program(ts, st).result matches Ok(ns) ==> label_total(nodes_labels(ns, 0))
            <= ts.len(),
{
    lemma_program_tail(ts, st, seq![]);
    assert(nodes_labels(seq![], 0) == LabelUse::zero());
}

/// `a` is a prefix of `b`.
pub open spec fn is_prefix(a: Seq<char>, b: Seq<char>) -> bool {
    a.len() <= b.len() && forall|k: int| 0 <= k < a.len() ==> a[k] == b[k]
}

/// `after` grew from `before`: each section only gained text at its end, and
/// no variable lost its storage.
pub open spec fn grows(before: CompilerModel, after: CompilerModel) -> bool {
    &&& is_prefix(before.text, after.text)
    &&& is_prefix(before.data, after.data)
    &&& is_prefix(before.bss, after.bss)
    &&& before.vars.subset_of(after.vars)
}

pub(crate) proof fn lemma_grows_trans(a: CompilerModel, b: CompilerModel, c: CompilerModel)
    requires
        grows(a, b),
        grows(b, c),
    ensures
        grows(a, c),
{
}

pub(crate) proof fn lemma_emit_grows(st: CompilerModel, code: Seq<char>)
    ensures
        grows(st, st.emit(code)),
{
}

proof fn lemma_declare_grows(st: CompilerModel, name: Seq<char>, m: bool)
    ensures
        grows(st, st.declare(name, m)),
        st.declare(name, m).str_count == st.str_count,
        st.declare(name, m).if_count == st.if_count,
        st.declare(name, m).while_count == st.while_count,
{
}

/// Compiling one statement only appends to the sections and moves each label
/// counter on by exactly the labels the statement takes, so the statement
/// compiled next starts numbering where this one stopped.
pub proof fn lemma_compile_node(st: CompilerModel, n: SpecNode, m: bool)
    ensures
        grows(st, compile_node(st, n, m)),
        compile_node(st, n, m).counted(st, node_labels(n)),
    decreases n, 0nat,
{
    match n {
        SpecNode::VarDeclaration(name, e) => {
            lemma_declare_grows(st, name, m);
            match e {
                Some(e) => lemma_emit_grows(st.declare(name, m), crate::compiler::expr_code(e)
                    + crate::compiler::store_code(name)),
                None => {},
            }
        },
        SpecNode::Assignment(name, e) => {
            lemma_declare_grows(st, name, m);
        },
        SpecNode::InputStatement(name) => {
            lemma_declare_grows(st, name, m);
        },
        SpecNode::IfStatement { branches, else_block } => {
            let id = st.if_count;
            let st1 = CompilerModel { if_count: st.if_count + 1, ..st };
            lemma_compile_branches(st1, branches, 0, id, else_block.len() == 0, m);
            let st2 = compile_branches(st1, branches, 0, id, else_block.len() == 0, m);
            if else_block.len() != 0 {
                lemma_compile_nodes(st2, else_block, 0, m);
            } else {
                assert(nodes_labels(else_block, 0) == LabelUse::zero());
            }
        },
        SpecNode::WhileStatement(l, op, r, body) => {
            let start = crate::compiler::label(".L_wh_s_"@, st.while_count);
            let end = crate::compiler::label(".L_wh_e_"@, st.while_count);
            let st1 = CompilerModel { while_count: st.while_count + 1, ..st }.emit(
                start + ":\n"@ + crate::compiler::test_code(l, op, r, end),
            );
            lemma_compile_nodes(st1, body, 0, m);
        },
        _ => {},
    }
}

/// Compiling statements in order only appends and moves the counters on by
/// the labels the statements take.
pub proof fn lemma_compile_nodes(st: CompilerModel, ns: Seq<SpecNode>, i: int, m: bool)
    ensures
        grows(st, compile_nodes(st, ns, i, m)),
        compile_nodes(st, ns, i, m).counted(st, nodes_labels(ns, i)),
    decreases ns, ns.len() - i,
{
    if 0 <= i < ns.len() {
        lemma_compile_node(st, ns[i], m);
        let st1 = compile_node(st, ns[i], m);
        lemma_compile_nodes(st1, ns, i + 1, m);
        lemma_grows_trans(st, st1, compile_nodes(st1, ns, i + 1, m));
    }
}

/// Compiling the arms of an `if` only appends and moves the counters on by
/// the labels their blocks take.
pub proof fn lemma_compile_branches(
    st: CompilerModel,
    bs: Seq<SpecIfBranch>,
    i: int,
    id: nat,
    no_else: bool,
    m: bool,
)
    ensures
        grows(st, compile_branches(st, bs, i, id, no_else, m)),
        compile_branches(st, bs, i, id, no_else, m).counted(st, branches_labels(bs, i)),
    decreases bs, bs.len() - i,
{
    if 0 <= i < bs.len() {
        let b = bs[i];
        let next = crate::compiler::branch_label(id, (i + 1) as nat);
        let target = if i == bs.len() - 1 && no_else {
            crate::compiler::if_end_label(id)
        } else {
            next
        };
        let st1 = st.emit(crate::compiler::test_code(b.left, b.op, b.right, target));
        lemma_compile_nodes(st1, b.block, 0, m);
        let st2 = compile_nodes(st1, b.block, 0, m);
        let st3 = st2.emit("    jmp "@ + crate::compiler::if_end_label(id) + "\n"@ + next + ":\n"@);
        lemma_compile_branches(st3, bs, i + 1, id, no_else, m);
        lemma_grows_trans(st, st1, st2);
        lemma_grows_trans(st, st2, st3);
        lemma_grows_trans(st, st3, compile_branches(st3, bs, i + 1, id, no_else, m));
    }
}

/// The generator before the statement at index `k` of `ns`, having compiled
/// the ones before it from `st`.
pub open spec fn before_statement(st: CompilerModel, ns: Seq<SpecNode>, k: nat, m: bool) -> CompilerModel
    decreases k,
{
    if k == 0 {
        st
    } else {
        compile_node(before_statement(st, ns, (k - 1) as nat, m), ns[k - 1], m)
    }
}

/// Each statement of a list takes the label numbers from where the counters
/// stand before it, as many as it needs; every later statement starts
/// numbering after them. So the numbers of two statements never overlap.
pub proof fn lemma_numbering_apart(st: CompilerModel, ns: Seq<SpecNode>, i: nat, j: nat, m: bool)
    requires
        i < j <= ns.len(),
    ensures
        before_statement(st, ns, i, m).str_count + node_labels(ns[i as int]).strings
            <= before_statement(st, ns, j, m).str_count,
        before_statement(st, ns, i, m).if_count + node_labels(ns[i as int]).ifs
            <= before_statement(st, ns, j, m).if_count,
        before_statement(st, ns, i, m).while_count + node_labels(ns[i as int]).whiles
            <= before_statement(st, ns, j, m).while_count,
    decreases j - i,
{
    let b = before_statement(st, ns, (j - 1) as nat, m);
    lemma_compile_node(b, ns[j - 1], m);
    if i + 1 < j {
        lemma_numbering_apart(st, ns, i, (j - 1) as nat, m);
    }
}

/// Giving a variable storage twice is giving it once, whether the second
/// time is for a module or for a program; afterwards it has storage.
pub proof fn lemma_declare_once(st: CompilerModel, name: Seq<char>, m: bool, m2: bool)
    ensures
        st.declare(name, m).vars.contains(name),
        st.declare(name, m).declare(name, m2) == st.declare(name, m),
{
}

/// The tokens' lines, from `acc` on: each at least 1 and in order.
pub open spec fn lines_ordered(ts: Seq<SpecTokenInfo>) -> bool {
    forall|a: int, b: int| 0 <= a <= b < ts.len() ==> 1 <= #[trigger] ts[a].line <= #[trigger] ts[b].line
}

proof fn lemma_lex_lines(s: Seq<char>, i: int, line: nat, acc: Seq<SpecTokenInfo>)
    requires
        0 <= i <= s.len(),
        line >= 1,
        lines_ordered(acc),
        acc.len() > 0 ==> acc.last().line <= line,
    ensures
        lex_from(s, i, line, acc) matches Ok(ts) ==> lines_ordered(ts),
    decreases s.len() - i,
{
    if i < s.len() {
        lemma_step_advances(s, i, line);
        match lex_step(s, i, line) {
            LexStep::Skip { next, line: l } => lemma_lex_lines(s, next, l, acc),
            LexStep::Emit { token, next, line: l } => {
                let acc2 = acc.push(token);
                assert forall|a: int, b: int| 0 <= a <= b < acc2.len() implies 1 <= #[trigger] acc2[a].line
                    <= #[trigger] acc2[b].line by {
                    if b == acc.len() && a < acc.len() {
                        assert(acc[a].line <= acc.last().line);
                    }
                }
                lemma_lex_lines(s, next, l, acc2);
            },
            LexStep::Fail(_) => {},
        }
    }
}

/// Every token's line is at least 1, and lines never go back: a token read
/// later is on the same line or a later one.
pub proof fn lemma_token_lines(s: Seq<char>)
    ensures
        lex_spec(s) matches Ok(ts) ==> lines_ordered(ts),
{
    lemma_lex_lines(s, 0, 1, seq![]);
}

/// The assembly of a program or module is laid out in a fixed way, whatever
/// the generator held before: the text section, which starts with the text
/// the generator held (for a new generator, the section header and, for a
/// program, the entry point that saves the argument count) and closes with a
/// return (for a module, which its loader calls) or an exit with status 0
/// (for a program); the runtime routines; then the data and bss sections,
/// each starting with what the generator held of it.
pub proof fn lemma_assembly_layout(st: CompilerModel, ns: Seq<SpecNode>, is_module: bool)
    ensures
        ({
            let fin = compile_nodes(st, ns, 0, is_module);
            let ending = if is_module {
                "    ret\n"@
            } else {
                "    mov rax, 60\n    mov rdi, 0\n    syscall\n"@
            };
            &&& generated(st, ns, is_module) == fin.text + ending + STDLIB_ASM@ + "\n"@ + fin.data
                + "\n"@ + fin.bss
            &&& is_prefix(st.text, fin.text)
            &&& is_prefix(st.data, fin.data)
            &&& is_prefix(st.bss, fin.bss)
        }),
{
    lemma_compile_nodes(st, ns, 0, is_module);
}


} // verus!
