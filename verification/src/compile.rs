//! The whole compilation pipeline: tokens to parsed statements to emitted
//! and finalized bytecode to a serialized module. Either a complete,
//! internally consistent module is produced, or the first error aborts the
//! compilation with no output; an undefined variable or callee always
//! aborts it.
use vstd::prelude::*;

use crate::ast::{Stmt, StmtV, stmts_view};
use crate::bytecode::{OpCode, opcode_byte};
use crate::emitter::{CompileError, Emitter, ErrV, St, emit_stmts_m, finalize_m,
    lemma_emit_stmts_m_mono, patches_bounded, st_of};
use crate::lexer::{LexError, Lexer, TokV, Token, toks_view};
use crate::module::{Module, to_module};
use crate::parser::{ParseError, Parser, p_program, regs_pairs};
use crate::semant::{SymV, SymbolTable};

verus! {

/// The first fatal error of a compilation, from whichever stage hit it.
#[derive(Debug)]
pub enum BuildError {
    Lex(LexError),
    Parse(ParseError),
    Emit(CompileError),
}

/// The emission state a compilation starts from, once parsing has
/// registered `regs`: empty buffers, and a symbol table holding exactly
/// those functions at their placeholder addresses.
pub open spec fn initial_st(regs: Seq<Seq<char>>) -> St {
    St {
        code: Seq::empty(),
        constants: Seq::empty(),
        patches: Seq::empty(),
        syms: SymV {
            functions: regs_pairs(regs),
            classes: Seq::empty(),
            variables: Seq::empty(),
            locals: Seq::empty(),
            next_var: 0u32,
            next_local: 0u32,
        },
    }
}

/// The model of compiling a token stream: parse the program, emit every
/// statement, append the halt instruction, and resolve every pending call
/// site; the result is the final code and the constant pool.
pub open spec fn compile_tokens_m(t: Seq<TokV>) -> Option<(Seq<u8>, Seq<Seq<char>>)> {
    match p_program(t, 0) {
        Some(v) => match emit_stmts_m(v.0, initial_st(v.2)) {
            Ok(st1) => {
                let code1 = st1.code + seq![opcode_byte(OpCode::Halt)];
                match finalize_m(code1, st1.patches, st1.syms.functions) {
                    Ok(code2) => Some((code2, st1.constants)),
                    Err(_) => None,
                }
            },
            Err(_) => None,
        },
        None => None,
    }
}

/// Compiles a token stream to a module: exactly the model
/// `compile_tokens_m`, with the constant pool UTF-8 encoded, version 1 and
/// entry point 0. Fails exactly when the model does; nothing is produced
/// then.
#[verifier::loop_isolation(false)]
#[verifier::rlimit(100)]
pub fn compile_tokens(tokens: Vec<Token>) -> (r: Result<Module, BuildError>)
    requires
        toks_view(tokens@).len() > 0,
        toks_view(tokens@).last() is EOF,
    ensures
        match compile_tokens_m(toks_view(tokens@)) {
            Some(v) => r is Ok && r->Ok_0@.code == v.0 && r->Ok_0@.version == 1 && r->Ok_0@.entry
                == 0 && r->Ok_0@.constants.len() == v.1.len() && (forall|i: int|
                0 <= i < v.1.len() ==> #[trigger] r->Ok_0@.constants[i]
                    == vstd::utf8::encode_utf8(v.1[i])),
            None => r is Err,
        },
{
    let ghost t = toks_view(tokens@);
    let mut symbols = SymbolTable::new();
    let mut parser = Parser::new(tokens);
    assert(parser.wf());
    let ast = match parser.parse(&mut symbols) {
        Ok(a) => a,
        Err(e) => {
            return Err(BuildError::Parse(e));
        },
    };
    let ghost ssv = stmts_view(ast@);
    let ghost regs = p_program(t, 0)->Some_0.2;
    let mut emitter = Emitter::new();
    let ghost st0 = initial_st(regs);
    proof {
        assert(symbols@.functions =~= regs_pairs(regs));
        assert(st_of(emitter@, symbols@) =~= st0);
        assert(ssv.subrange(0, ssv.len() as int) =~= ssv);
        crate::ast::lemma_stmts_view_len(ast@);
    }
    let mut k: usize = 0;
    while k < ast.len()
        invariant
            emit_stmts_m(ssv, st0) == emit_stmts_m(
                ssv.subrange(k as int, ssv.len() as int),
                st_of(emitter@, symbols@),
            ),
            k <= ast@.len(),
            ssv.len() == ast@.len(),
        decreases ast@.len() - k,
    {
        proof {
            crate::ast::lemma_stmts_view_index(ast@, k as int);
        }
        let ghost suffix = ssv.subrange(k as int, ssv.len() as int);
        assert(suffix.first() == ssv[k as int]);
        assert(suffix.drop_first() =~= ssv.subrange(k as int + 1, ssv.len() as int));
        match emitter.emit_stmt(&ast[k], &mut symbols) {
            Ok(()) => {},
            Err(e) => {
                return Err(BuildError::Emit(e));
            },
        }
        k = k + 1;
    }
    assert(ssv.subrange(ssv.len() as int, ssv.len() as int) =~= Seq::<StmtV>::empty());
    let ghost st1 = emit_stmts_m(ssv, st0)->Ok_0;
    assert(st_of(emitter@, symbols@) == st1);
    proof {
        lemma_emit_stmts_m_mono(ssv, st0);
        assert(patches_bounded(st0.patches, st0.code.len() as int));
    }
    emitter.emit_byte(u8::from(OpCode::Halt));
    proof {
        assert(emitter@.code =~= st1.code + seq![opcode_byte(OpCode::Halt)]);
        assert(patches_bounded(emitter@.patches, emitter@.code.len() as int));
    }
    match emitter.finalize(&symbols) {
        Ok(()) => {},
        Err(e) => {
            return Err(BuildError::Emit(e));
        },
    }
    let m = to_module(&emitter);
    Ok(m)
}

/// Compiles source text: the scan model `lex_m` composed with the
/// pipeline model `compile_tokens_m`. The compilation succeeds exactly
/// when both models do; the module then carries exactly the model's code
/// and its constant pool UTF-8 encoded, with version 1 and entry point 0.
pub fn compile(source: String) -> (r: Result<Module, BuildError>)
    ensures
        match crate::lexer::lex_m(source@, 0) {
            Some(tv) => match compile_tokens_m(tv) {
                Some(v) => r is Ok && r->Ok_0@.code == v.0 && r->Ok_0@.version == 1
                    && r->Ok_0@.entry == 0 && r->Ok_0@.constants.len() == v.1.len() && (forall|
                    i: int,
                |
                    0 <= i < v.1.len() ==> #[trigger] r->Ok_0@.constants[i]
                        == vstd::utf8::encode_utf8(v.1[i])),
                None => r is Err,
            },
            None => r is Err,
        },
{
    let mut lexer = Lexer::new(source);
    let tokens = match lexer.tokenize() {
        Ok(ts) => ts,
        Err(e) => {
            return Err(BuildError::Lex(e));
        },
    };
    compile_tokens(tokens)
}

} // verus!
