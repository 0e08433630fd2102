//! The compiler's pipeline, from source text to assembly, and the choice of
//! the files it reads and writes.

use vstd::prelude::*;

use crate::compiler::{generated, initial_model, Compiler};
use crate::laws::lemma_program_labels;
use crate::lexer::{lemma_lex_length, lex_spec, tokens_view, try_lex, LexError};
use crate::parser::{parse_error_text, parsed_program, PState, Parser};
use crate::text::chars_of;

verus! {

/// A compiled source: its assembly, and whether it is a module (loaded at
/// run time by `exec`) rather than a program.
pub struct Compiled {
    pub assembly: String,
    pub is_module: bool,
}

/// Why a source does not compile.
pub enum CompileError {
    /// The source cannot be lexed.
    Lex(LexError),
    /// The tokens are not a program; the parser's message.
    Syntax(String),
}

/// Compiles a source text: lexes it, parses the tokens from the first, and
/// generates the assembly of a module or a program, as the source says.
pub fn compile_source(source: &str) -> (r: Result<Compiled, CompileError>)
    requires
        source@.len() * 2 + 3 < usize::MAX,
    ensures
        match lex_spec(source@) {
            Err(e) => r matches Err(CompileError::Lex(le)) && le == e,
            Ok(ts) => {
                let p = parsed_program(ts, PState { pos: 0, module: false });
                match p.result {
                    Err(e) => r matches Err(CompileError::Syntax(m)) && m@ == parse_error_text(e),
                    Ok(ns) => r matches Ok(c) && c.is_module == p.state.module && c.assembly@
                        == generated(initial_model(p.state.module), ns, p.state.module),
                }
            },
        },
{
    let tokens = match try_lex(source) {
        Ok(t) => t,
        Err(e) => {
            return Err(CompileError::Lex(e));
        },
    };
    proof {
        lemma_lex_length(source@, 0, 1, seq![]);
    }
    let ghost ts = tokens_view(tokens@);
    let mut parser = Parser::new(tokens.as_slice());
    let ast = match parser.parse_all() {
        Ok(nodes) => nodes,
        Err(m) => {
            return Err(CompileError::Syntax(m));
        },
    };
    let is_module = parser.is_module();
    proof {
        lemma_program_labels(ts, PState { pos: 0, module: false });
    }
    let assembly = Compiler::new(is_module).generate(ast, is_module);
    Ok(Compiled { assembly, is_module })
}

/// Whether `s` ends with `.jds`.
pub open spec fn is_source_name(s: Seq<char>) -> bool {
    s.len() >= 4 && s.subrange(s.len() - 4, s.len() as int) == ".jds"@
}

/// A name with every trailing `.jds` removed.
pub open spec fn trim_source_suffix(s: Seq<char>) -> Seq<char>
    decreases s.len(),
{
    if is_source_name(s) {
        trim_source_suffix(s.subrange(0, s.len() - 4))
    } else {
        s
    }
}

fn ends_with_jds(cs: &Vec<char>, k: usize) -> (r: bool)
    requires
        k <= cs@.len(),
    ensures
        r == is_source_name(cs@.subrange(0, k as int)),
{
    proof {
        reveal_strlit(".jds");
    }
    if k < 4 {
        return false;
    }
    let r = cs[k - 4] == '.' && cs[k - 3] == 'j' && cs[k - 2] == 'd' && cs[k - 1] == 's';
    let ghost t = cs@.subrange(0, k as int);
    assert(t.subrange(t.len() - 4, t.len() as int) =~= cs@.subrange(k - 4, k as int));
    if r {
        assert(cs@.subrange(k - 4, k as int) =~= ".jds"@);
    } else {
        assert(cs@.subrange(k - 4, k as int) != ".jds"@) by {
            if cs@.subrange(k - 4, k as int) == ".jds"@ {
                assert(cs@.subrange(k - 4, k as int)[0] == '.');
                assert(cs@.subrange(k - 4, k as int)[1] == 'j');
                assert(cs@.subrange(k - 4, k as int)[2] == 'd');
                assert(cs@.subrange(k - 4, k as int)[3] == 's');
            }
        }
    }
    r
}

/// The index of the first argument that names a source file (ends with
/// `.jds`), if any.
pub fn source_file_index(args: &Vec<String>) -> (r: Option<usize>)
    ensures
        match r {
            Some(i) => i < args@.len() && is_source_name(args@[i as int]@) && forall|j: int|
                0 <= j < i ==> !is_source_name(#[trigger] args@[j]@),
            None => forall|j: int| 0 <= j < args@.len() ==> !is_source_name(#[trigger] args@[j]@),
        },
{
    let n = args.len();
    let mut i: usize = 0;
    while i < n
        invariant
            n == args@.len(),
            i <= n,
            forall|j: int| 0 <= j < i ==> !is_source_name(#[trigger] args@[j]@),
        decreases n - i,
    {
        let cs = chars_of(args[i].as_str());
        let k = cs.len();
        assert(cs@.subrange(0, k as int) =~= cs@);
        if ends_with_jds(&cs, k) {
            return Some(i);
        }
        i = i + 1;
    }
    None
}

/// The name of the output for a source file: its name without the trailing
/// `.jds` (every one of them).
pub fn output_name(input_file: &str) -> (r: String)
    ensures
        r@ == trim_source_suffix(input_file@),
{
    let cs = chars_of(input_file);
    let mut k = cs.len();
    assert(cs@.subrange(0, k as int) =~= input_file@);
    while ends_with_jds(&cs, k)
        invariant
            k <= cs@.len(),
            trim_source_suffix(cs@.subrange(0, k as int)) == trim_source_suffix(input_file@),
        decreases k,
    {
        let ghost t = cs@.subrange(0, k as int);
        assert(t.subrange(0, t.len() - 4) =~= cs@.subrange(0, k - 4));
        k = k - 4;
    }
    let mut r = String::new();
    let mut j: usize = 0;
    while j < k
        invariant
            k <= cs@.len(),
            j <= k,
            r@ == cs@.subrange(0, j as int),
        decreases k - j,
    {
        r.push(cs[j]);
        j = j + 1;
        assert(r@ =~= cs@.subrange(0, j as int));
    }
    r
}

} // verus!
