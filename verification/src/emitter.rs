//! The bytecode emitter: lowers statements and expressions into a linear
//! byte-addressed instruction stream, resolving variables through the symbol
//! table, backpatching forward jumps, and recording unresolved call sites
//! for a finalization pass.
//!
//! The whole emission process is specified by a functional model
//! (`emit_expr_m`, `emit_stmt_m`, `finalize_m`) over ghost state `St`; every
//! executable method is proved to realize that model exactly.
use vstd::prelude::*;

use crate::ast::{Expr, ExprV, Op, Stmt, StmtV, exprs_view, names_view, stmt_view, stmts_view,
    lemma_exprs_view_index, lemma_stmts_view_index};
use crate::bytecode::{OpCode, le4, opcode_byte, wrap32};
use crate::semant::{SymV, SymbolTable, lookup, lookup_function, lookup_pairs, set_addr,
    set_function_addr};

verus! {

broadcast use vstd::std_specs::vec::group_vec_axioms;

/// A fatal emission error; the first one aborts the compilation.
#[derive(Debug)]
pub enum CompileError {
    /// A variable reference or assignment whose name is bound neither
    /// locally nor globally.
    UndefinedVariable(String),
    /// A recorded call site whose callee was never defined, discovered
    /// during finalization.
    UndefinedFunction(String),
    /// A construct the emitter does not lower to bytecode: object
    /// instantiation, field access, field assignment and method calls.
    Unsupported,
    /// A slot counter exhausted the 32-bit index space.
    TooManySlots,
    /// A section of the module grew past what the binary layout can record.
    TooLarge,
}

/// Ghost mirror of `CompileError`.
#[verifier::ext_equal]
pub ghost enum ErrV {
    UndefinedVariable(Seq<char>),
    UndefinedFunction(Seq<char>),
    Unsupported,
    TooManySlots,
    TooLarge,
}

impl View for CompileError {
    type V = ErrV;

    open spec fn view(&self) -> ErrV {
        match self {
            CompileError::UndefinedVariable(n) => ErrV::UndefinedVariable(n@),
            CompileError::UndefinedFunction(n) => ErrV::UndefinedFunction(n@),
            CompileError::Unsupported => ErrV::Unsupported,
            CompileError::TooManySlots => ErrV::TooManySlots,
            CompileError::TooLarge => ErrV::TooLarge,
        }
    }
}

/// Ghost mirror of the emitter's own state.
#[verifier::ext_equal]
pub ghost struct EmV {
    pub code: Seq<u8>,
    pub constants: Seq<Seq<char>>,
    pub patches: Seq<(int, Seq<char>)>,
}

/// The full emission state: emitter buffers plus the symbol table.
#[verifier::ext_equal]
pub ghost struct St {
    pub code: Seq<u8>,
    pub constants: Seq<Seq<char>>,
    pub patches: Seq<(int, Seq<char>)>,
    pub syms: SymV,
}

pub open spec fn st_of(em: EmV, sy: SymV) -> St {
    St { code: em.code, constants: em.constants, patches: em.patches, syms: sy }
}

/// The state with one opcode byte appended.
pub open spec fn push_op(st: St, op: OpCode) -> St {
    St { code: st.code + seq![opcode_byte(op)], ..st }
}

/// The state with a 4-byte little-endian operand appended.
pub open spec fn push_u32(st: St, v: u32) -> St {
    St { code: st.code + le4(v), ..st }
}

/// The state after a jump instruction with a 4-byte placeholder offset; the
/// placeholder operand starts at `st.code.len() + 1`.
pub open spec fn push_jump(st: St, op: OpCode) -> St {
    St { code: st.code + seq![opcode_byte(op), 0xffu8, 0xffu8, 0xffu8, 0xffu8], ..st }
}

/// Four bytes overwritten in place at `ix`.
pub open spec fn write4(code: Seq<u8>, ix: int, b: Seq<u8>) -> Seq<u8> {
    code.update(ix, b[0]).update(ix + 1, b[1]).update(ix + 2, b[2]).update(ix + 3, b[3])
}

/// The state after patching the placeholder at `ix` with the forward
/// distance from just past the placeholder to the current end of the code.
pub open spec fn patch(st: St, ix: int) -> St {
    St { code: write4(st.code, ix, le4(wrap32(st.code.len() - ix - 4))), ..st }
}

/// The first-use index of `s` in the constant pool.
pub open spec fn find_const(consts: Seq<Seq<char>>, s: Seq<char>) -> Option<int>
    decreases consts.len(),
{
    if consts.len() == 0 {
        None
    } else if consts.first() == s {
        Some(0)
    } else {
        match find_const(consts.drop_first(), s) {
            Some(i) => Some(i + 1),
            None => None,
        }
    }
}

/// The pool index of `s`, interning it at the end on first use.
pub open spec fn intern(consts: Seq<Seq<char>>, s: Seq<char>) -> (int, Seq<Seq<char>>) {
    match find_const(consts, s) {
        Some(i) => (i, consts),
        None => (consts.len() as int, consts.push(s)),
    }
}

/// The opcode of each binary operator.
pub open spec fn op_opcode(op: Op) -> OpCode {
    match op {
        Op::Add => OpCode::Add,
        Op::Sub => OpCode::Sub,
        Op::Mul => OpCode::Mul,
        Op::Div => OpCode::Div,
        Op::LessThan => OpCode::Less,
    }
}

/// The code for loading the variable `name`: the local slot if the name is
/// locally bound, else the global slot, else an error.
pub open spec fn load_var_m(st: St, name: Seq<char>) -> Result<St, ErrV> {
    match lookup(st.syms.locals, name) {
        Some(ix) => Ok(push_u32(push_op(st, OpCode::LoadLocal), ix)),
        None => match lookup(st.syms.variables, name) {
            Some(ix) => Ok(push_u32(push_op(st, OpCode::LoadGlobal), ix)),
            None => Err(ErrV::UndefinedVariable(name)),
        },
    }
}

/// The functional model of expression emission: operands are laid down
/// left to right, each expression's code leaves one value on the stack.
pub open spec fn emit_expr_m(e: ExprV, st: St) -> Result<St, ErrV>
    decreases e,
{
    match e {
        ExprV::Integer(v) => Ok(push_u32(push_op(st, OpCode::Push), wrap32(v as int))),
        ExprV::StringLiteral(s) => {
            let (ix, consts) = intern(st.constants, s);
            Ok(
                push_u32(
                    push_op(St { constants: consts, ..st }, OpCode::LoadConst),
                    wrap32(ix),
                ),
            )
        },
        ExprV::Variable(n) => load_var_m(st, n),
        ExprV::NewArray(sz) => match emit_expr_m(*sz, st) {
            Ok(st1) => Ok(push_op(st1, OpCode::NewArray)),
            Err(e) => Err(e),
        },
        ExprV::ArrayAccess(n, ix) => match load_var_m(st, n) {
            Ok(st1) => match emit_expr_m(*ix, st1) {
                Ok(st2) => Ok(push_op(st2, OpCode::LoadArray)),
                Err(e) => Err(e),
            },
            Err(e) => Err(e),
        },
        ExprV::Call(n, args) => match emit_args_m(args, st) {
            Ok(st1) => {
                let st2 = push_op(st1, OpCode::Call);
                let st3 = St {
                    patches: st2.patches + seq![(st2.code.len() as int, n)],
                    ..st2
                };
                let st4 = push_u32(st3, 0);
                Ok(St { code: st4.code + seq![(args.len() % 256) as u8], ..st4 })
            },
            Err(e) => Err(e),
        },
        ExprV::Binary(l, op, r) => match emit_expr_m(*l, st) {
            Ok(st1) => match emit_expr_m(*r, st1) {
                Ok(st2) => Ok(push_op(st2, op_opcode(op))),
                Err(e) => Err(e),
            },
            Err(e) => Err(e),
        },
        _ => Err(ErrV::Unsupported),
    }
}

/// Arguments emitted in order, threading the state.
pub open spec fn emit_args_m(args: Seq<ExprV>, st: St) -> Result<St, ErrV>
    decreases args,
{
    if args.len() == 0 {
        Ok(st)
    } else {
        match emit_expr_m(args.first(), st) {
            Ok(st1) => emit_args_m(args.drop_first(), st1),
            Err(e) => Err(e),
        }
    }
}

/// Parameters seeded as local slots 0, 1, ... in declaration order.
pub open spec fn seed_params_m(params: Seq<Seq<char>>, st: St) -> Result<St, ErrV>
    decreases params.len(),
{
    if params.len() == 0 {
        Ok(st)
    } else if st.syms.next_local == u32::MAX {
        Err(ErrV::TooManySlots)
    } else {
        let sy = st.syms;
        let st1 = St {
            syms: SymV {
                locals: sy.locals.push((params.first(), sy.next_local)),
                next_local: (sy.next_local + 1) as u32,
                ..sy
            },
            ..st
        };
        seed_params_m(params.drop_first(), st1)
    }
}

/// The functional model of statement emission. Every statement's code is
/// stack-neutral on the path that executes it; a function definition's body
/// is skipped over by an unconditional jump and entered only through calls.
pub open spec fn emit_stmt_m(s: StmtV, st: St) -> Result<St, ErrV>
    decreases s,
{
    match s {
        StmtV::VarDecl(n, e) => match emit_expr_m(e, st) {
            Ok(st1) => {
                if st1.syms.next_var == u32::MAX {
                    Err(ErrV::TooManySlots)
                } else {
                    let ix = st1.syms.next_var;
                    let st2 = St {
                        syms: SymV {
                            variables: st1.syms.variables.push((n, ix)),
                            next_var: (ix + 1) as u32,
                            ..st1.syms
                        },
                        ..st1
                    };
                    Ok(push_u32(push_op(st2, OpCode::StoreGlobal), ix))
                }
            },
            Err(e) => Err(e),
        },
        StmtV::Assign(n, e) => match emit_expr_m(e, st) {
            Ok(st1) => match lookup(st1.syms.locals, n) {
                Some(ix) => Ok(push_u32(push_op(st1, OpCode::StoreLocal), ix)),
                None => match lookup(st1.syms.variables, n) {
                    Some(ix) => Ok(push_u32(push_op(st1, OpCode::StoreGlobal), ix)),
                    None => Err(ErrV::UndefinedVariable(n)),
                },
            },
            Err(e) => Err(e),
        },
        StmtV::ArraySet(n, ix, v) => match load_var_m(st, n) {
            Ok(st1) => match emit_expr_m(ix, st1) {
                Ok(st2) => match emit_expr_m(v, st2) {
                    Ok(st3) => Ok(push_op(st3, OpCode::StoreArray)),
                    Err(e) => Err(e),
                },
                Err(e) => Err(e),
            },
            Err(e) => Err(e),
        },
        StmtV::Return(e) => match emit_expr_m(e, st) {
            Ok(st1) => Ok(push_op(st1, OpCode::Return)),
            Err(e) => Err(e),
        },
        StmtV::Print(e) => match emit_expr_m(e, st) {
            Ok(st1) => Ok(push_op(st1, OpCode::Print)),
            Err(e) => Err(e),
        },
        StmtV::Block(ss) => emit_stmts_m(ss, st),
        StmtV::If(c, t, eo) => match emit_expr_m(c, st) {
            Ok(st1) => {
                let p1 = st1.code.len() as int + 1;
                let st2 = push_jump(st1, OpCode::JumpIfFalse);
                match emit_stmt_m(*t, st2) {
                    Ok(st3) => {
                        let p2 = st3.code.len() as int + 1;
                        let st4 = patch(push_jump(st3, OpCode::Jump), p1);
                        match eo {
                            Some(eb) => match emit_stmt_m(*eb, st4) {
                                Ok(st5) => Ok(patch(st5, p2)),
                                Err(e) => Err(e),
                            },
                            None => Ok(patch(st4, p2)),
                        }
                    },
                    Err(e) => Err(e),
                }
            },
            Err(e) => Err(e),
        },
        StmtV::While(c, b) => {
            let loop_start = st.code.len() as int;
            match emit_expr_m(c, st) {
                Ok(st1) => {
                    let p = st1.code.len() as int + 1;
                    let st2 = push_jump(st1, OpCode::JumpIfFalse);
                    match emit_stmt_m(*b, st2) {
                        Ok(st3) => {
                            let st4 = push_op(st3, OpCode::Jump);
                            let st5 = push_u32(
                                st4,
                                wrap32(loop_start - st4.code.len() - 4),
                            );
                            Ok(patch(st5, p))
                        },
                        Err(e) => Err(e),
                    }
                },
                Err(e) => Err(e),
            }
        },
        StmtV::Expression(e) => match emit_expr_m(e, st) {
            Ok(st1) => Ok(push_op(st1, OpCode::Pop)),
            Err(e) => Err(e),
        },
        StmtV::Function(name, params, body) => {
            let p = st.code.len() as int + 1;
            let st1 = push_jump(st, OpCode::Jump);
            let entry = wrap32(st1.code.len() as int);
            let saved_locals = st1.syms.locals;
            let saved_next = st1.syms.next_local;
            let st2 = St {
                syms: SymV {
                    functions: set_addr(st1.syms.functions, name, entry),
                    locals: Seq::empty(),
                    next_local: 0,
                    ..st1.syms
                },
                ..st1
            };
            match seed_params_m(params, st2) {
                Ok(st3) => match emit_stmts_m(body, st3) {
                    Ok(st4) => {
                        let st5 = patch(push_op(st4, OpCode::Return), p);
                        Ok(
                            St {
                                syms: SymV {
                                    locals: saved_locals,
                                    next_local: saved_next,
                                    ..st5.syms
                                },
                                ..st5
                            },
                        )
                    },
                    Err(e) => Err(e),
                },
                Err(e) => Err(e),
            }
        },
        StmtV::Class(_n, _fs, _ms) => Ok(st),
        StmtV::FieldSet(_obj, _f, _v) => Err(ErrV::Unsupported),
    }
}

/// Statements of a block emitted in order, threading the state.
pub open spec fn emit_stmts_m(ss: Seq<StmtV>, st: St) -> Result<St, ErrV>
    decreases ss,
{
    if ss.len() == 0 {
        Ok(st)
    } else {
        match emit_stmt_m(ss.first(), st) {
            Ok(st1) => emit_stmts_m(ss.drop_first(), st1),
            Err(e) => Err(e),
        }
    }
}

/// The functional model of finalization: each recorded call site is
/// overwritten with its callee's entry address; an undefined callee is
/// fatal.
pub open spec fn finalize_m(
    code: Seq<u8>,
    patches: Seq<(int, Seq<char>)>,
    fns: Seq<(Seq<char>, u32)>,
) -> Result<Seq<u8>, ErrV>
    decreases patches.len(),
{
    if patches.len() == 0 {
        Ok(code)
    } else {
        let (ix, name) = patches.first();
        match lookup(fns, name) {
            Some(addr) => finalize_m(write4(code, ix, le4(addr)), patches.drop_first(), fns),
            None => Err(ErrV::UndefinedFunction(name)),
        }
    }
}

/// Every recorded call-site placeholder lies within the code buffer.
pub open spec fn patches_bounded(patches: Seq<(int, Seq<char>)>, code_len: int) -> bool {
    forall|j: int| 0 <= j < patches.len() ==> 0 <= #[trigger] patches[j].0
        && patches[j].0 + 4 <= code_len
}

/// Call-site placeholders in ascending, non-overlapping order: each site
/// starts at least four bytes after the one before it. Emission records
/// each new site past the end of the code laid down so far, so the order
/// is maintained throughout.
pub open spec fn patches_ordered(patches: Seq<(int, Seq<char>)>) -> bool {
    forall|j: int| 0 <= j < patches.len() - 1 ==> #[trigger] patches[j].0 + 4 <= patches[j
        + 1].0
}

/// Emitting an expression only appends code, and keeps every recorded
/// call site inside the buffer.
pub proof fn lemma_emit_expr_m_mono(e: ExprV, st: St)
    ensures
        emit_expr_m(e, st) is Ok ==> {
            let st1 = emit_expr_m(e, st)->Ok_0;
            &&& st1.code.len() >= st.code.len()
            &&& (patches_bounded(st.patches, st.code.len() as int) ==> patches_bounded(
                st1.patches,
                st1.code.len() as int,
            ))
            &&& ((patches_bounded(st.patches, st.code.len() as int) && patches_ordered(
                st.patches,
            )) ==> patches_ordered(st1.patches))
        },
    decreases e,
{
    match e {
        ExprV::NewArray(sz) => {
            lemma_emit_expr_m_mono(*sz, st);
        },
        ExprV::ArrayAccess(n, ix) => {
            match load_var_m(st, n) {
                Ok(st1) => {
                    lemma_emit_expr_m_mono(*ix, st1);
                },
                Err(_) => {},
            }
        },
        ExprV::Call(n, args) => {
            lemma_emit_args_m_mono(args, st);
            match emit_args_m(args, st) {
                Ok(st1) => {
                    let st2 = push_op(st1, OpCode::Call);
                    let ix = st2.code.len() as int;
                    let newp = st2.patches + seq![(ix, n)];
                    let fin = emit_expr_m(e, st)->Ok_0;
                    assert(fin.code.len() == ix + 5);
                    assert(fin.patches == newp);
                    if patches_bounded(st.patches, st.code.len() as int) {
                        assert forall|j: int| 0 <= j < newp.len() implies 0 <= #[trigger] newp[j].0
                            && newp[j].0 + 4 <= fin.code.len() by {
                            if j < st2.patches.len() {
                                assert(newp[j] == st1.patches[j]);
                            } else {
                                assert(newp[j] == (ix, n));
                            }
                        }
                        if patches_ordered(st.patches) {
                            assert forall|j: int| 0 <= j < newp.len() - 1 implies #[trigger] newp[
                                j
                            ].0 + 4 <= newp[j + 1].0 by {
                                assert(newp[j] == st1.patches[j]);
                                if j + 1 < st1.patches.len() {
                                    assert(newp[j + 1] == st1.patches[j + 1]);
                                } else {
                                    assert(newp[j + 1] == (ix, n));
                                }
                            }
                        }
                    }
                },
                Err(_) => {},
            }
        },
        ExprV::Binary(l, _op, r) => {
            lemma_emit_expr_m_mono(*l, st);
            match emit_expr_m(*l, st) {
                Ok(st1) => {
                    lemma_emit_expr_m_mono(*r, st1);
                },
                Err(_) => {},
            }
        },
        _ => {},
    }
}

/// As `lemma_emit_expr_m_mono`, for an argument list.
pub proof fn lemma_emit_args_m_mono(args: Seq<ExprV>, st: St)
    ensures
        emit_args_m(args, st) is Ok ==> {
            let st1 = emit_args_m(args, st)->Ok_0;
            &&& st1.code.len() >= st.code.len()
            &&& (patches_bounded(st.patches, st.code.len() as int) ==> patches_bounded(
                st1.patches,
                st1.code.len() as int,
            ))
            &&& ((patches_bounded(st.patches, st.code.len() as int) && patches_ordered(
                st.patches,
            )) ==> patches_ordered(st1.patches))
        },
    decreases args,
{
    if args.len() > 0 {
        lemma_emit_expr_m_mono(args.first(), st);
        match emit_expr_m(args.first(), st) {
            Ok(st1) => {
                lemma_emit_args_m_mono(args.drop_first(), st1);
            },
            Err(_) => {},
        }
    }
}

/// Seeding parameters touches only the symbol table.
pub proof fn lemma_seed_params_m_frame(params: Seq<Seq<char>>, st: St)
    ensures
        seed_params_m(params, st) is Ok ==> {
            let st1 = seed_params_m(params, st)->Ok_0;
            &&& st1.code == st.code
            &&& st1.patches == st.patches
            &&& st1.constants == st.constants
        },
    decreases params.len(),
{
    if params.len() > 0 && st.syms.next_local != u32::MAX {
        let sy = st.syms;
        let st1 = St {
            syms: SymV {
                locals: sy.locals.push((params.first(), sy.next_local)),
                next_local: (sy.next_local + 1) as u32,
                ..sy
            },
            ..st
        };
        lemma_seed_params_m_frame(params.drop_first(), st1);
    }
}

/// Emitting a statement only appends or patches code in place, and keeps
/// every recorded call site inside the buffer.
pub proof fn lemma_emit_stmt_m_mono(s: StmtV, st: St)
    ensures
        emit_stmt_m(s, st) is Ok ==> {
            let st1 = emit_stmt_m(s, st)->Ok_0;
            &&& st1.code.len() >= st.code.len()
            &&& (patches_bounded(st.patches, st.code.len() as int) ==> patches_bounded(
                st1.patches,
                st1.code.len() as int,
            ))
            &&& ((patches_bounded(st.patches, st.code.len() as int) && patches_ordered(
                st.patches,
            )) ==> patches_ordered(st1.patches))
        },
    decreases s,
{
    match s {
        StmtV::VarDecl(_n, e) => {
            lemma_emit_expr_m_mono(e, st);
        },
        StmtV::Assign(_n, e) => {
            lemma_emit_expr_m_mono(e, st);
        },
        StmtV::ArraySet(n, ix, v) => {
            match load_var_m(st, n) {
                Ok(st1) => {
                    lemma_emit_expr_m_mono(ix, st1);
                    match emit_expr_m(ix, st1) {
                        Ok(st2) => {
                            lemma_emit_expr_m_mono(v, st2);
                        },
                        Err(_) => {},
                    }
                },
                Err(_) => {},
            }
        },
        StmtV::Return(e) => {
            lemma_emit_expr_m_mono(e, st);
        },
        StmtV::Print(e) => {
            lemma_emit_expr_m_mono(e, st);
        },
        StmtV::Block(ss) => {
            lemma_emit_stmts_m_mono(ss, st);
        },
        StmtV::If(c, t, eo) => {
            lemma_emit_expr_m_mono(c, st);
            match emit_expr_m(c, st) {
                Ok(st1) => {
                    let st2 = push_jump(st1, OpCode::JumpIfFalse);
                    lemma_emit_stmt_m_mono(*t, st2);
                    match emit_stmt_m(*t, st2) {
                        Ok(st3) => {
                            let st4 = patch(push_jump(st3, OpCode::Jump), st1.code.len() as int
                                + 1);
                            match eo {
                                Some(eb) => {
                                    lemma_emit_stmt_m_mono(*eb, st4);
                                },
                                None => {},
                            }
                        },
                        Err(_) => {},
                    }
                },
                Err(_) => {},
            }
        },
        StmtV::While(c, b) => {
            lemma_emit_expr_m_mono(c, st);
            match emit_expr_m(c, st) {
                Ok(st1) => {
                    let st2 = push_jump(st1, OpCode::JumpIfFalse);
                    lemma_emit_stmt_m_mono(*b, st2);
                },
                Err(_) => {},
            }
        },
        StmtV::Expression(e) => {
            lemma_emit_expr_m_mono(e, st);
        },
        StmtV::Function(name, params, body) => {
            let st1 = push_jump(st, OpCode::Jump);
            let entry = wrap32(st1.code.len() as int);
            let st2 = St {
                syms: SymV {
                    functions: set_addr(st1.syms.functions, name, entry),
                    locals: Seq::empty(),
                    next_local: 0,
                    ..st1.syms
                },
                ..st1
            };
            lemma_seed_params_m_frame(params, st2);
            match seed_params_m(params, st2) {
                Ok(st3) => {
                    lemma_emit_stmts_m_mono(body, st3);
                },
                Err(_) => {},
            }
        },
        _ => {},
    }
}

/// As `lemma_emit_stmt_m_mono`, for a statement list.
pub proof fn lemma_emit_stmts_m_mono(ss: Seq<StmtV>, st: St)
    ensures
        emit_stmts_m(ss, st) is Ok ==> {
            let st1 = emit_stmts_m(ss, st)->Ok_0;
            &&& st1.code.len() >= st.code.len()
            &&& (patches_bounded(st.patches, st.code.len() as int) ==> patches_bounded(
                st1.patches,
                st1.code.len() as int,
            ))
            &&& ((patches_bounded(st.patches, st.code.len() as int) && patches_ordered(
                st.patches,
            )) ==> patches_ordered(st1.patches))
        },
    decreases ss,
{
    if ss.len() > 0 {
        lemma_emit_stmt_m_mono(ss.first(), st);
        match emit_stmt_m(ss.first(), st) {
            Ok(st1) => {
                lemma_emit_stmts_m_mono(ss.drop_first(), st1);
            },
            Err(_) => {},
        }
    }
}

/// Four bytes written in place land exactly there and change nothing else.
pub proof fn lemma_write4_facts(code: Seq<u8>, ix: int, b: Seq<u8>)
    requires
        0 <= ix,
        ix + 4 <= code.len(),
        b.len() == 4,
    ensures
        write4(code, ix, b).len() == code.len(),
        write4(code, ix, b).subrange(ix, ix + 4) == b,
        forall|q: int| 0 <= q < code.len() && !(ix <= q < ix + 4) ==> write4(code, ix, b)[q]
            == code[q],
{
    assert(write4(code, ix, b).subrange(ix, ix + 4) =~= b);
}

/// A prefix of a prefix is a prefix.
proof fn lemma_prefix_trans(a: Seq<u8>, b: Seq<u8>, c: Seq<u8>)
    requires
        a.len() <= b.len() <= c.len(),
        b.subrange(0, a.len() as int) == a,
        c.subrange(0, b.len() as int) == b,
    ensures
        c.subrange(0, a.len() as int) == a,
{
    assert forall|q: int| 0 <= q < a.len() implies c.subrange(0, a.len() as int)[q] == a[q] by {
        assert(b[q] == b.subrange(0, a.len() as int)[q]);
        assert(c[q] == c.subrange(0, b.len() as int)[q]);
    }
    assert(c.subrange(0, a.len() as int) =~= a);
}

/// Emitting an expression never rewrites a byte laid down before it began.
pub proof fn lemma_emit_expr_m_prefix(e: ExprV, st: St)
    ensures
        emit_expr_m(e, st) is Ok ==> (emit_expr_m(e, st)->Ok_0).code.subrange(
            0,
            st.code.len() as int,
        ) == st.code,
    decreases e,
{
    match e {
        ExprV::Integer(_v) => {
            if emit_expr_m(e, st) is Ok {
                assert((emit_expr_m(e, st)->Ok_0).code.subrange(0, st.code.len() as int)
                    =~= st.code);
            }
        },
        ExprV::NewArray(sz) => {
            lemma_emit_expr_m_prefix(*sz, st);
            match emit_expr_m(*sz, st) {
                Ok(st1) => {
                    assert((push_op(st1, OpCode::NewArray)).code.subrange(
                        0,
                        st1.code.len() as int,
                    ) =~= st1.code);
                    lemma_emit_expr_m_mono(*sz, st);
                    lemma_prefix_trans(
                        st.code,
                        st1.code,
                        (emit_expr_m(e, st)->Ok_0).code,
                    );
                },
                Err(_) => {},
            }
        },
        ExprV::ArrayAccess(n, ix) => {
            match load_var_m(st, n) {
                Ok(st1) => {
                    assert(st1.code.subrange(0, st.code.len() as int) =~= st.code);
                    lemma_emit_expr_m_prefix(*ix, st1);
                    lemma_emit_expr_m_mono(*ix, st1);
                    match emit_expr_m(*ix, st1) {
                        Ok(st2) => {
                            lemma_prefix_trans(st.code, st1.code, st2.code);
                            assert((emit_expr_m(e, st)->Ok_0).code.subrange(
                                0,
                                st2.code.len() as int,
                            ) =~= st2.code);
                            lemma_prefix_trans(
                                st.code,
                                st2.code,
                                (emit_expr_m(e, st)->Ok_0).code,
                            );
                        },
                        Err(_) => {},
                    }
                },
                Err(_) => {},
            }
        },
        ExprV::Call(n, args) => {
            lemma_emit_args_m_prefix(args, st);
            lemma_emit_args_m_mono(args, st);
            match emit_args_m(args, st) {
                Ok(st1) => {
                    assert((emit_expr_m(e, st)->Ok_0).code.subrange(0, st1.code.len() as int)
                        =~= st1.code);
                    lemma_prefix_trans(st.code, st1.code, (emit_expr_m(e, st)->Ok_0).code);
                },
                Err(_) => {},
            }
        },
        ExprV::Binary(l, _op, r) => {
            lemma_emit_expr_m_prefix(*l, st);
            lemma_emit_expr_m_mono(*l, st);
            match emit_expr_m(*l, st) {
                Ok(st1) => {
                    lemma_emit_expr_m_prefix(*r, st1);
                    lemma_emit_expr_m_mono(*r, st1);
                    match emit_expr_m(*r, st1) {
                        Ok(st2) => {
                            lemma_prefix_trans(st.code, st1.code, st2.code);
                            assert((emit_expr_m(e, st)->Ok_0).code.subrange(
                                0,
                                st2.code.len() as int,
                            ) =~= st2.code);
                            lemma_prefix_trans(
                                st.code,
                                st2.code,
                                (emit_expr_m(e, st)->Ok_0).code,
                            );
                        },
                        Err(_) => {},
                    }
                },
                Err(_) => {},
            }
        },
        _ => {
            if emit_expr_m(e, st) is Ok {
                assert((emit_expr_m(e, st)->Ok_0).code.subrange(0, st.code.len() as int)
                    =~= st.code);
            }
        },
    }
}

/// As `lemma_emit_expr_m_prefix`, for an argument list.
pub proof fn lemma_emit_args_m_prefix(args: Seq<ExprV>, st: St)
    ensures
        emit_args_m(args, st) is Ok ==> (emit_args_m(args, st)->Ok_0).code.subrange(
            0,
            st.code.len() as int,
        ) == st.code,
    decreases args,
{
    if args.len() == 0 {
        if emit_args_m(args, st) is Ok {
            assert((emit_args_m(args, st)->Ok_0).code.subrange(0, st.code.len() as int)
                =~= st.code);
        }
    } else {
        lemma_emit_expr_m_prefix(args.first(), st);
        lemma_emit_expr_m_mono(args.first(), st);
        match emit_expr_m(args.first(), st) {
            Ok(st1) => {
                lemma_emit_args_m_prefix(args.drop_first(), st1);
                lemma_emit_args_m_mono(args.drop_first(), st1);
                match emit_args_m(args.drop_first(), st1) {
                    Ok(st2) => {
                        lemma_prefix_trans(st.code, st1.code, st2.code);
                    },
                    Err(_) => {},
                }
            },
            Err(_) => {},
        }
    }
}

/// The `If` case of `lemma_emit_stmt_m_prefix`.
#[verifier::rlimit(100)]
#[verifier::spinoff_prover]
proof fn lemma_emit_stmt_m_prefix_if(s: StmtV, st: St)
    requires
        s is If,
    ensures
        emit_stmt_m(s, st) is Ok ==> (emit_stmt_m(s, st)->Ok_0).code.subrange(
            0,
            st.code.len() as int,
        ) == st.code,
    decreases s, 0int,
{
    let n = st.code.len() as int;
    match s {
        StmtV::If(c, t, eo) => {

            lemma_emit_expr_m_prefix(c, st);
            lemma_emit_expr_m_mono(c, st);
            match emit_expr_m(c, st) {
                Ok(st1) => {
                    let p1 = st1.code.len() as int + 1;
                    let st2 = push_jump(st1, OpCode::JumpIfFalse);
                    assert(st2.code.subrange(0, st1.code.len() as int) =~= st1.code);
                    lemma_emit_stmt_m_prefix(*t, st2);
                    lemma_emit_stmt_m_mono(*t, st2);
                    match emit_stmt_m(*t, st2) {
                        Ok(st3) => {
                            lemma_prefix_trans(st.code, st1.code, st2.code);
                            lemma_prefix_trans(st.code, st2.code, st3.code);
                            let st4pre = push_jump(st3, OpCode::Jump);
                            assert(st4pre.code.subrange(0, st3.code.len() as int) =~= st3.code);
                            lemma_prefix_trans(st.code, st3.code, st4pre.code);
                            let st4 = patch(st4pre, p1);
                            lemma_write4_facts(
                                st4pre.code,
                                p1,
                                le4(wrap32(st4pre.code.len() - p1 - 4)),
                            );
                            assert(st4.code.subrange(0, n) =~= st4pre.code.subrange(0, n));
                            match eo {
                                Some(eb) => {
                                    lemma_emit_stmt_m_prefix(*eb, st4);
                                    lemma_emit_stmt_m_mono(*eb, st4);
                                    match emit_stmt_m(*eb, st4) {
                                        Ok(st5) => {
                                            lemma_prefix_trans(st.code, st4.code, st5.code);
                                            let p2 = st3.code.len() as int + 1;
                                            lemma_write4_facts(
                                                st5.code,
                                                p2,
                                                le4(wrap32(st5.code.len() - p2 - 4)),
                                            );
                                            assert(patch(st5, p2).code.subrange(0, n)
                                                =~= st5.code.subrange(0, n));
                                            assert((emit_stmt_m(s, st)->Ok_0).code.subrange(0, n)
                                                =~= st.code);
                                        },
                                        Err(_) => {},
                                    }
                                },
                                None => {
                                    let p2 = st3.code.len() as int + 1;
                                    lemma_write4_facts(
                                        st4.code,
                                        p2,
                                        le4(wrap32(st4.code.len() - p2 - 4)),
                                    );
                                    assert(patch(st4, p2).code.subrange(0, n)
                                        =~= st4.code.subrange(0, n));
                                    assert((emit_stmt_m(s, st)->Ok_0).code.subrange(0, n)
                                        =~= st.code);
                                },
                            }
                        },
                        Err(_) => {},
                    }
                },
                Err(_) => {},
            }
        },
        _ => {},
    }
}

/// The `While` case of `lemma_emit_stmt_m_prefix`.
#[verifier::rlimit(100)]
#[verifier::spinoff_prover]
proof fn lemma_emit_stmt_m_prefix_while(s: StmtV, st: St)
    requires
        s is While,
    ensures
        emit_stmt_m(s, st) is Ok ==> (emit_stmt_m(s, st)->Ok_0).code.subrange(
            0,
            st.code.len() as int,
        ) == st.code,
    decreases s, 0int,
{
    let n = st.code.len() as int;
    match s {
        StmtV::While(c, b) => {

            lemma_emit_expr_m_prefix(c, st);
            lemma_emit_expr_m_mono(c, st);
            match emit_expr_m(c, st) {
                Ok(st1) => {
                    let p = st1.code.len() as int + 1;
                    let st2 = push_jump(st1, OpCode::JumpIfFalse);
                    assert(st2.code.subrange(0, st1.code.len() as int) =~= st1.code);
                    lemma_emit_stmt_m_prefix(*b, st2);
                    lemma_emit_stmt_m_mono(*b, st2);
                    match emit_stmt_m(*b, st2) {
                        Ok(st3) => {
                            lemma_prefix_trans(st.code, st1.code, st2.code);
                            lemma_prefix_trans(st.code, st2.code, st3.code);
                            let st4 = push_op(st3, OpCode::Jump);
                            let st5 = push_u32(st4, wrap32(st.code.len() - st4.code.len() - 4));
                            assert(st5.code.subrange(0, st3.code.len() as int) =~= st3.code);
                            lemma_prefix_trans(st.code, st3.code, st5.code);
                            lemma_write4_facts(
                                st5.code,
                                p,
                                le4(wrap32(st5.code.len() - p - 4)),
                            );
                            assert(patch(st5, p).code.subrange(0, n) =~= st5.code.subrange(0, n));
                            assert((emit_stmt_m(s, st)->Ok_0).code.subrange(0, n) =~= st.code);
                        },
                        Err(_) => {},
                    }
                },
                Err(_) => {},
            }
        },
        _ => {},
    }
}

/// The `Function` case of `lemma_emit_stmt_m_prefix`.
#[verifier::rlimit(100)]
#[verifier::spinoff_prover]
proof fn lemma_emit_stmt_m_prefix_function(s: StmtV, st: St)
    requires
        s is Function,
    ensures
        emit_stmt_m(s, st) is Ok ==> (emit_stmt_m(s, st)->Ok_0).code.subrange(
            0,
            st.code.len() as int,
        ) == st.code,
    decreases s, 0int,
{
    let n = st.code.len() as int;
    match s {
        StmtV::Function(name, params, body) => {

            let p = st.code.len() as int + 1;
            let st1 = push_jump(st, OpCode::Jump);
            let entry = wrap32(st1.code.len() as int);
            let st2 = St {
                syms: SymV {
                    functions: set_addr(st1.syms.functions, name, entry),
                    locals: Seq::empty(),
                    next_local: 0,
                    ..st1.syms
                },
                ..st1
            };
            assert(st2.code.subrange(0, n) =~= st.code);
            lemma_seed_params_m_frame(params, st2);
            match seed_params_m(params, st2) {
                Ok(st3) => {
                    lemma_emit_stmts_m_prefix(body, st3);
                    lemma_emit_stmts_m_mono(body, st3);
                    match emit_stmts_m(body, st3) {
                        Ok(st4) => {
                            assert(st3.code.subrange(0, n) =~= st.code);
                            lemma_prefix_trans(st.code, st3.code, st4.code);
                            let st5pre = push_op(st4, OpCode::Return);
                            assert(st5pre.code.subrange(0, st4.code.len() as int) =~= st4.code);
                            lemma_prefix_trans(st.code, st4.code, st5pre.code);
                            lemma_write4_facts(
                                st5pre.code,
                                p,
                                le4(wrap32(st5pre.code.len() - p - 4)),
                            );
                            assert(patch(st5pre, p).code.subrange(0, n)
                                =~= st5pre.code.subrange(0, n));
                            assert((emit_stmt_m(s, st)->Ok_0).code.subrange(0, n) =~= st.code);
                        },
                        Err(_) => {},
                    }
                },
                Err(_) => {},
            }
        },
        _ => {},
    }
}

/// Emitting a statement never rewrites a byte laid down before it began:
/// its backpatches land only inside the chunk it appended itself.
#[verifier::rlimit(100)]
#[verifier::spinoff_prover]
pub proof fn lemma_emit_stmt_m_prefix(s: StmtV, st: St)
    ensures
        emit_stmt_m(s, st) is Ok ==> (emit_stmt_m(s, st)->Ok_0).code.subrange(
            0,
            st.code.len() as int,
        ) == st.code,
    decreases s, 1int,
{
    let n = st.code.len() as int;
    match s {
        StmtV::VarDecl(_nm, e) => {
            lemma_emit_expr_m_prefix(e, st);
            lemma_emit_expr_m_mono(e, st);
            match emit_expr_m(e, st) {
                Ok(st1) => {
                    if emit_stmt_m(s, st) is Ok {
                        assert((emit_stmt_m(s, st)->Ok_0).code.subrange(0, st1.code.len() as int)
                            =~= st1.code);
                        lemma_prefix_trans(st.code, st1.code, (emit_stmt_m(s, st)->Ok_0).code);
                    }
                },
                Err(_) => {},
            }
        },
        StmtV::Assign(_nm, e) => {
            lemma_emit_expr_m_prefix(e, st);
            lemma_emit_expr_m_mono(e, st);
            match emit_expr_m(e, st) {
                Ok(st1) => {
                    if emit_stmt_m(s, st) is Ok {
                        assert((emit_stmt_m(s, st)->Ok_0).code.subrange(0, st1.code.len() as int)
                            =~= st1.code);
                        lemma_prefix_trans(st.code, st1.code, (emit_stmt_m(s, st)->Ok_0).code);
                    }
                },
                Err(_) => {},
            }
        },
        StmtV::ArraySet(nm, ix, v) => {
            match load_var_m(st, nm) {
                Ok(st1) => {
                    assert(st1.code.subrange(0, n) =~= st.code);
                    lemma_emit_expr_m_prefix(ix, st1);
                    lemma_emit_expr_m_mono(ix, st1);
                    match emit_expr_m(ix, st1) {
                        Ok(st2) => {
                            lemma_prefix_trans(st.code, st1.code, st2.code);
                            lemma_emit_expr_m_prefix(v, st2);
                            lemma_emit_expr_m_mono(v, st2);
                            match emit_expr_m(v, st2) {
                                Ok(st3) => {
                                    lemma_prefix_trans(st.code, st2.code, st3.code);
                                    assert((emit_stmt_m(s, st)->Ok_0).code.subrange(
                                        0,
                                        st3.code.len() as int,
                                    ) =~= st3.code);
                                    lemma_prefix_trans(
                                        st.code,
                                        st3.code,
                                        (emit_stmt_m(s, st)->Ok_0).code,
                                    );
                                },
                                Err(_) => {},
                            }
                        },
                        Err(_) => {},
                    }
                },
                Err(_) => {},
            }
        },
        StmtV::Return(e) => {
            lemma_emit_expr_m_prefix(e, st);
            lemma_emit_expr_m_mono(e, st);
            match emit_expr_m(e, st) {
                Ok(st1) => {
                    if emit_stmt_m(s, st) is Ok {
                        assert((emit_stmt_m(s, st)->Ok_0).code.subrange(0, st1.code.len() as int)
                            =~= st1.code);
                        lemma_prefix_trans(st.code, st1.code, (emit_stmt_m(s, st)->Ok_0).code);
                    }
                },
                Err(_) => {},
            }
        },
        StmtV::Print(e) => {
            lemma_emit_expr_m_prefix(e, st);
            lemma_emit_expr_m_mono(e, st);
            match emit_expr_m(e, st) {
                Ok(st1) => {
                    if emit_stmt_m(s, st) is Ok {
                        assert((emit_stmt_m(s, st)->Ok_0).code.subrange(0, st1.code.len() as int)
                            =~= st1.code);
                        lemma_prefix_trans(st.code, st1.code, (emit_stmt_m(s, st)->Ok_0).code);
                    }
                },
                Err(_) => {},
            }
        },
        StmtV::Block(ss) => {
            lemma_emit_stmts_m_prefix(ss, st);
        },
        StmtV::Expression(e) => {
            lemma_emit_expr_m_prefix(e, st);
            lemma_emit_expr_m_mono(e, st);
            match emit_expr_m(e, st) {
                Ok(st1) => {
                    if emit_stmt_m(s, st) is Ok {
                        assert((emit_stmt_m(s, st)->Ok_0).code.subrange(0, st1.code.len() as int)
                            =~= st1.code);
                        lemma_prefix_trans(st.code, st1.code, (emit_stmt_m(s, st)->Ok_0).code);
                    }
                },
                Err(_) => {},
            }
        },
        StmtV::If(_c, _t, _eo) => {
            lemma_emit_stmt_m_prefix_if(s, st);
        },
        StmtV::While(_c, _b) => {
            lemma_emit_stmt_m_prefix_while(s, st);
        },
        StmtV::Function(_name, _params, _body) => {
            lemma_emit_stmt_m_prefix_function(s, st);
        },
        _ => {
            if emit_stmt_m(s, st) is Ok {
                assert((emit_stmt_m(s, st)->Ok_0).code.subrange(0, n) =~= st.code);
            }
        },
    }
}

/// As `lemma_emit_stmt_m_prefix`, for a statement list.
pub proof fn lemma_emit_stmts_m_prefix(ss: Seq<StmtV>, st: St)
    ensures
        emit_stmts_m(ss, st) is Ok ==> (emit_stmts_m(ss, st)->Ok_0).code.subrange(
            0,
            st.code.len() as int,
        ) == st.code,
    decreases ss,
{
    if ss.len() == 0 {
        if emit_stmts_m(ss, st) is Ok {
            assert((emit_stmts_m(ss, st)->Ok_0).code.subrange(0, st.code.len() as int)
                =~= st.code);
        }
    } else {
        lemma_emit_stmt_m_prefix(ss.first(), st);
        lemma_emit_stmt_m_mono(ss.first(), st);
        match emit_stmt_m(ss.first(), st) {
            Ok(st1) => {
                lemma_emit_stmts_m_prefix(ss.drop_first(), st1);
                lemma_emit_stmts_m_mono(ss.drop_first(), st1);
                match emit_stmts_m(ss.drop_first(), st1) {
                    Ok(st2) => {
                        lemma_prefix_trans(st.code, st1.code, st2.code);
                    },
                    Err(_) => {},
                }
            },
            Err(_) => {},
        }
    }
}

/// The emitter: a growable code buffer, a deduplicated string constant
/// pool in first-use order, and the pending call sites awaiting
/// finalization.
pub struct Emitter {
    pub code: Vec<u8>,
    pub constants: Vec<String>,
    pub calls_to_patch: Vec<(usize, String)>,
}

impl View for Emitter {
    type V = EmV;

    open spec fn view(&self) -> EmV {
        EmV {
            code: self.code@,
            constants: self.constants@.map_values(|s: String| s@),
            patches: self.calls_to_patch@.map_values(|p: (usize, String)| (p.0 as int, p.1@)),
        }
    }
}

/// The 32-bit two's-complement image of a signed value.
fn u32_wrap_of_i32(v: i32) -> (r: u32)
    ensures
        r == wrap32(v as int),
{
    if v >= 0 {
        proof {
            vstd::arithmetic::div_mod::lemma_small_mod(v as nat, 0x1_0000_0000nat);
        }
        v as u32
    } else {
        let w: i64 = (v as i64) + 0x1_0000_0000;
        proof {
            vstd::arithmetic::div_mod::lemma_mod_multiples_vanish(
                1,
                v as int,
                0x1_0000_0000int,
            );
            vstd::arithmetic::div_mod::lemma_small_mod((v + 0x1_0000_0000) as nat, 0x1_0000_0000nat);
        }
        w as u32
    }
}

/// The 32-bit two's-complement image of the backward distance
/// `a - b - 4`, as the while-loop's closing jump computes it.
fn wrap32_back(a: usize, b: usize) -> (r: u32)
    ensures
        r == wrap32(a as int - b as int - 4),
{
    let aa: u128 = a as u128;
    let bb: u128 = (b as u128) + 4;
    if aa >= bb {
        let d: u128 = aa - bb;
        proof {
            vstd::arithmetic::div_mod::lemma_mod_bound(d as int, 0x1_0000_0000int);
        }
        (d % 0x1_0000_0000) as u32
    } else {
        let d: u128 = bb - aa;
        let m: u128 = d % 0x1_0000_0000;
        proof {
            lemma_neg_mod(d as int);
            vstd::arithmetic::div_mod::lemma_mod_bound(d as int, 0x1_0000_0000int);
        }
        if m == 0 {
            0
        } else {
            (0x1_0000_0000 - m) as u32
        }
    }
}

/// For positive `d`, the Euclidean remainder of `-d` is `2^32 - d % 2^32`,
/// or 0 when `d` is a multiple of `2^32`.
proof fn lemma_neg_mod(d: int)
    requires
        d > 0,
    ensures
        d % 0x1_0000_0000 == 0 ==> (-d) % 0x1_0000_0000 == 0,
        d % 0x1_0000_0000 != 0 ==> (-d) % 0x1_0000_0000 == 0x1_0000_0000 - d % 0x1_0000_0000,
{
    let m = 0x1_0000_0000int;
    let q = d % m;
    vstd::arithmetic::div_mod::lemma_fundamental_div_mod(d, m);
    let k = d / m;
    assert(d == m * k + q);
    if q == 0 {
        assert(-d == m * (-k) + 0) by (nonlinear_arith)
            requires
                d == m * k,
        ;
        vstd::arithmetic::div_mod::lemma_mod_multiples_vanish(-k, 0, m);
    } else {
        assert(-d == m * (-k - 1) + (m - q)) by (nonlinear_arith)
            requires
                d == m * k + q,
        ;
        vstd::arithmetic::div_mod::lemma_mod_multiples_vanish(-k - 1, m - q, m);
        vstd::arithmetic::div_mod::lemma_small_mod((m - q) as nat, m as nat);
    }
}

impl Emitter {
    /// A fresh emitter with empty buffers.
    pub fn new() -> (r: Emitter)
        ensures
            r@ == (EmV {
                code: Seq::<u8>::empty(),
                constants: Seq::<Seq<char>>::empty(),
                patches: Seq::<(int, Seq<char>)>::empty(),
            }),
    {
        let r = Emitter { code: Vec::new(), constants: Vec::new(), calls_to_patch: Vec::new() };
        assert(r@.constants =~= Seq::<Seq<char>>::empty());
        assert(r@.patches =~= Seq::<(int, Seq<char>)>::empty());
        r
    }

    /// Appends one byte to the code section.
    pub fn emit_byte(&mut self, b: u8)
        ensures
            final(self)@ == (EmV { code: old(self)@.code + seq![b], ..old(self)@ }),
    {
        self.code.push(b);
    }

    /// Appends a 4-byte little-endian operand.
    fn emit_u32(&mut self, v: u32)
        ensures
            final(self)@ == (EmV { code: old(self)@.code + le4(v), ..old(self)@ }),
    {
        crate::bytecode::push_le4(&mut self.code, v);
    }

    /// Appends the 4-byte little-endian two's-complement image of `val`.
    pub fn emit_int(&mut self, val: i32)
        ensures
            final(self)@ == (EmV {
                code: old(self)@.code + le4(wrap32(val as int)),
                ..old(self)@
            }),
    {
        let v = u32_wrap_of_i32(val);
        self.emit_u32(v);
    }

    /// Emits a jump instruction with a 4-byte placeholder offset and
    /// returns the placeholder's position.
    fn emit_jump(&mut self, instruction: u8) -> (ix: usize)
        ensures
            final(self)@ == (EmV {
                code: old(self)@.code + seq![instruction, 0xffu8, 0xffu8, 0xffu8, 0xffu8],
                ..old(self)@
            }),
            ix == old(self)@.code.len() + 1,
            ix + 4 == final(self)@.code.len(),
    {
        self.emit_byte(instruction);
        self.emit_byte(0xff);
        self.emit_byte(0xff);
        self.emit_byte(0xff);
        self.emit_byte(0xff);
        assert(self@.code =~= old(self)@.code + seq![
            instruction,
            0xffu8,
            0xffu8,
            0xffu8,
            0xffu8,
        ]);
        self.code.len() - 4
    }

    /// Overwrites the placeholder at `offset_index` with the distance from
    /// just past it to the current end of the code.
    fn patch_jump(&mut self, offset_index: usize)
        requires
            offset_index + 4 <= old(self)@.code.len(),
        ensures
            final(self)@ == (EmV {
                code: write4(
                    old(self)@.code,
                    offset_index as int,
                    le4(wrap32(old(self)@.code.len() - offset_index - 4)),
                ),
                ..old(self)@
            }),
    {
        let dist: usize = self.code.len() - offset_index - 4;
        let d: u64 = dist as u64;
        proof {
            vstd::arithmetic::div_mod::lemma_mod_bound(d as int, 0x1_0000_0000int);
        }
        let d32: u32 = ((d % 0x1_0000_0000) as u32);
        let b0: u8 = (d32 & 0xff) as u8;
        let b1: u8 = ((d32 >> 8) & 0xff) as u8;
        let b2: u8 = ((d32 >> 16) & 0xff) as u8;
        let b3: u8 = ((d32 >> 24) & 0xff) as u8;
        self.code[offset_index] = b0;
        self.code[offset_index + 1] = b1;
        self.code[offset_index + 2] = b2;
        self.code[offset_index + 3] = b3;
    }

    /// Lowers one expression; on success the state advances exactly as the
    /// model `emit_expr_m` says, and the call fails exactly when the model
    /// does, with the same error.
    #[verifier::rlimit(50)]
    #[verifier::loop_isolation(false)]
    pub fn emit_expr(&mut self, expr: &Expr, symbols: &mut SymbolTable) -> (r: Result<
        (),
        CompileError,
    >)
        ensures
            match emit_expr_m(expr@, st_of(old(self)@, old(symbols)@)) {
                Ok(st) => r is Ok && st_of(final(self)@, final(symbols)@) == st,
                Err(k) => r is Err && r->Err_0@ == k,
            },
        decreases *expr,
    {
        let ghost pre = st_of(self@, symbols@);
        match expr {
            Expr::Integer(val) => {
                self.emit_byte(u8::from(OpCode::Push));
                self.emit_int(*val);
                assert(st_of(self@, symbols@) =~= push_u32(
                    push_op(pre, OpCode::Push),
                    wrap32(*val as int),
                ));
                Ok(())
            },
            Expr::StringLiteral(s) => {
                let idx = self.intern_const(s);
                self.emit_byte(u8::from(OpCode::LoadConst));
                let ghost mid = St { constants: intern(pre.constants, s@).1, ..pre };
                let d: u64 = idx as u64;
                proof {
                    vstd::arithmetic::div_mod::lemma_mod_bound(d as int, 0x1_0000_0000int);
                }
                self.emit_u32((d % 0x1_0000_0000) as u32);
                assert(st_of(self@, symbols@) =~= push_u32(
                    push_op(mid, OpCode::LoadConst),
                    wrap32(intern(pre.constants, s@).0),
                ));
                Ok(())
            },
            Expr::Variable(name) => match self.load_var(name, symbols) {
                Ok(()) => {
                    Ok(())
                },
                Err(e) => Err(e),
            },
            Expr::NewArray(sz) => match self.emit_expr(&**sz, symbols) {
                Ok(()) => {
                    self.emit_byte(u8::from(OpCode::NewArray));
                    Ok(())
                },
                Err(e) => Err(e),
            },
            Expr::ArrayAccess(name, ix) => match self.load_var(name, symbols) {
                Ok(()) => match self.emit_expr(&**ix, symbols) {
                    Ok(()) => {
                        self.emit_byte(u8::from(OpCode::LoadArray));
                        Ok(())
                    },
                    Err(e) => Err(e),
                },
                Err(e) => Err(e),
            },
            Expr::Call(name, args) => {
                let ghost av = exprs_view(args@);
                assert(av.subrange(0, av.len() as int) =~= av);
                let mut k: usize = 0;
                proof {
                    crate::ast::lemma_exprs_view_len(args@);
                }
                while k < args.len()
                    invariant
                        k <= args.len(),
                        av == exprs_view(args@),
                        av.len() == args@.len(),
                        emit_args_m(av, pre) == emit_args_m(
                            av.subrange(k as int, av.len() as int),
                            st_of(self@, symbols@),
                        ),
                    decreases args.len() - k,
                {
                    proof {
                        lemma_exprs_view_index(args@, k as int);
                        assert(decreases_to!(*expr => expr->Call_1));
                        assert(decreases_to!(expr->Call_1 => expr->Call_1@));
                        assert(decreases_to!(expr->Call_1@ => expr->Call_1@[k as int]));
                        assert(expr->Call_1@[k as int] == args@[k as int]);
                    }
                    let ghost cur = st_of(self@, symbols@);
                    let ghost suffix = av.subrange(k as int, av.len() as int);
                    assert(suffix.first() == av[k as int]);
                    assert(suffix.drop_first() =~= av.subrange(k as int + 1, av.len() as int));
                    match self.emit_expr(&args[k], symbols) {
                        Ok(()) => {},
                        Err(e) => {
                            return Err(e);
                        },
                    }
                    k = k + 1;
                }
                assert(av.subrange(av.len() as int, av.len() as int) =~= Seq::<ExprV>::empty());
                let ghost st1 = st_of(self@, symbols@);
                self.emit_byte(u8::from(OpCode::Call));
                let pos = self.code.len();
                let nm = name.clone();
                self.calls_to_patch.push((pos, nm));
                assert(self@.patches =~= st1.patches + seq![(pos as int, name@)]);
                self.emit_u32(0);
                let argc: u8 = (args.len() % 256) as u8;
                self.emit_byte(argc);
                assert(st_of(self@, symbols@) =~= ({
                    let st2 = push_op(st1, OpCode::Call);
                    let st3 = St {
                        patches: st2.patches + seq![(st2.code.len() as int, name@)],
                        ..st2
                    };
                    let st4 = push_u32(st3, 0);
                    St { code: st4.code + seq![(av.len() % 256) as u8], ..st4 }
                }));
                Ok(())
            },
            Expr::Binary(l, op, r) => match self.emit_expr(&**l, symbols) {
                Ok(()) => match self.emit_expr(&**r, symbols) {
                    Ok(()) => {
                        match op {
                            Op::Add => self.emit_byte(u8::from(OpCode::Add)),
                            Op::Sub => self.emit_byte(u8::from(OpCode::Sub)),
                            Op::Mul => self.emit_byte(u8::from(OpCode::Mul)),
                            Op::Div => self.emit_byte(u8::from(OpCode::Div)),
                            Op::LessThan => self.emit_byte(u8::from(OpCode::Less)),
                        }
                        Ok(())
                    },
                    Err(e) => Err(e),
                },
                Err(e) => Err(e),
            },
            Expr::MethodCall(_obj, _m, _args) => Err(CompileError::Unsupported),
            Expr::NewInstance(_n) => Err(CompileError::Unsupported),
            Expr::GetField(_obj, _f) => Err(CompileError::Unsupported),
        }
    }

    /// Interns `s` in the constant pool and returns its index.
    #[verifier::loop_isolation(false)]
    fn intern_const(&mut self, s: &String) -> (ix: usize)
        ensures
            ix as int == intern(old(self)@.constants, s@).0,
            final(self)@ == (EmV {
                constants: intern(old(self)@.constants, s@).1,
                ..old(self)@
            }),
            ix < final(self)@.constants.len(),
    {
        let ghost cv = self@.constants;
        let mut k: usize = 0;
        assert(cv.subrange(0, cv.len() as int) =~= cv);
        while k < self.constants.len()
            invariant
                k <= self.constants.len(),
                cv == self@.constants,
                cv.len() == self.constants@.len(),
                self@ == old(self)@,
                match find_const(cv.subrange(k as int, cv.len() as int), s@) {
                    Some(i) => find_const(cv, s@) == Some(i + k),
                    None => find_const(cv, s@) is None,
                },
            decreases self.constants.len() - k,
        {
            let ghost suffix = cv.subrange(k as int, cv.len() as int);
            assert(suffix.first() == cv[k as int]);
            assert(suffix.drop_first() =~= cv.subrange(k as int + 1, cv.len() as int));
            if self.constants[k] == *s {
                return k;
            }
            k = k + 1;
        }
        assert(cv.subrange(cv.len() as int, cv.len() as int) =~= Seq::<Seq<char>>::empty());
        let c = s.clone();
        self.constants.push(c);
        assert(self@.constants =~= cv.push(s@));
        self.constants.len() - 1
    }

    /// Emits the load of variable `name`, local scope first.
    fn load_var(&mut self, name: &String, symbols: &SymbolTable) -> (r: Result<(), CompileError>)
        ensures
            match load_var_m(st_of(old(self)@, symbols@), name@) {
                Ok(st) => r is Ok && st_of(final(self)@, symbols@) == st,
                Err(k) => r is Err && r->Err_0@ == k,
            },
    {
        let ghost pre = st_of(self@, symbols@);
        match lookup_pairs(&symbols.locals, name) {
            Some(ix) => {
                self.emit_byte(u8::from(OpCode::LoadLocal));
                self.emit_u32(ix);
                assert(st_of(self@, symbols@) =~= push_u32(push_op(pre, OpCode::LoadLocal), ix));
                Ok(())
            },
            None => match lookup_pairs(&symbols.variables, name) {
                Some(ix) => {
                    self.emit_byte(u8::from(OpCode::LoadGlobal));
                    self.emit_u32(ix);
                    assert(st_of(self@, symbols@) =~= push_u32(
                        push_op(pre, OpCode::LoadGlobal),
                        ix,
                    ));
                    Ok(())
                },
                None => Err(CompileError::UndefinedVariable(name.clone())),
            },
        }
    }

    /// Lowers one statement; on success the state advances exactly as the
    /// model `emit_stmt_m` says, and the call fails exactly when the model
    /// does, with the same error.
    #[verifier::rlimit(100)]
    #[verifier::loop_isolation(false)]
    pub fn emit_stmt(&mut self, stmt: &Stmt, symbols: &mut SymbolTable) -> (r: Result<
        (),
        CompileError,
    >)
        ensures
            match emit_stmt_m(stmt@, st_of(old(self)@, old(symbols)@)) {
                Ok(st) => r is Ok && st_of(final(self)@, final(symbols)@) == st,
                Err(k) => r is Err && r->Err_0@ == k,
            },
        decreases *stmt,
    {
        let ghost pre = st_of(self@, symbols@);
        match stmt {
            Stmt::VarDecl(name, e) => {
                match self.emit_expr(e, symbols) {
                    Ok(()) => {},
                    Err(er) => {
                        return Err(er);
                    },
                }
                if symbols.next_var_index == u32::MAX {
                    return Err(CompileError::TooManySlots);
                }
                let ghost st1 = st_of(self@, symbols@);
                let index = symbols.next_var_index;
                let nm = name.clone();
                symbols.variables.push((nm, index));
                symbols.next_var_index = index + 1;
                assert(symbols@.variables =~= st1.syms.variables.push((name@, index)));
                self.emit_byte(u8::from(OpCode::StoreGlobal));
                self.emit_u32(index);
                assert(st_of(self@, symbols@) =~= ({
                    let st2 = St {
                        syms: SymV {
                            variables: st1.syms.variables.push((name@, index)),
                            next_var: (index + 1) as u32,
                            ..st1.syms
                        },
                        ..st1
                    };
                    push_u32(push_op(st2, OpCode::StoreGlobal), index)
                }));
                Ok(())
            },
            Stmt::Assign(name, e) => {
                match self.emit_expr(e, symbols) {
                    Ok(()) => {},
                    Err(er) => {
                        return Err(er);
                    },
                }
                let ghost st1 = st_of(self@, symbols@);
                match lookup_pairs(&symbols.locals, name) {
                    Some(ix) => {
                        self.emit_byte(u8::from(OpCode::StoreLocal));
                        self.emit_u32(ix);
                        assert(st_of(self@, symbols@) =~= push_u32(
                            push_op(st1, OpCode::StoreLocal),
                            ix,
                        ));
                        Ok(())
                    },
                    None => match lookup_pairs(&symbols.variables, name) {
                        Some(ix) => {
                            self.emit_byte(u8::from(OpCode::StoreGlobal));
                            self.emit_u32(ix);
                            assert(st_of(self@, symbols@) =~= push_u32(
                                push_op(st1, OpCode::StoreGlobal),
                                ix,
                            ));
                            Ok(())
                        },
                        None => Err(CompileError::UndefinedVariable(name.clone())),
                    },
                }
            },
            Stmt::ArraySet(name, ix, v) => {
                match self.load_var(name, symbols) {
                    Ok(()) => {},
                    Err(er) => {
                        return Err(er);
                    },
                }
                match self.emit_expr(ix, symbols) {
                    Ok(()) => {},
                    Err(er) => {
                        return Err(er);
                    },
                }
                match self.emit_expr(v, symbols) {
                    Ok(()) => {},
                    Err(er) => {
                        return Err(er);
                    },
                }
                self.emit_byte(u8::from(OpCode::StoreArray));
                Ok(())
            },
            Stmt::Return(e) => {
                match self.emit_expr(e, symbols) {
                    Ok(()) => {},
                    Err(er) => {
                        return Err(er);
                    },
                }
                self.emit_byte(u8::from(OpCode::Return));
                Ok(())
            },
            Stmt::Print(e) => {
                match self.emit_expr(e, symbols) {
                    Ok(()) => {},
                    Err(er) => {
                        return Err(er);
                    },
                }
                self.emit_byte(u8::from(OpCode::Print));
                Ok(())
            },
            Stmt::Block(stmts) => {
                let ghost sv = stmts_view(stmts@);
                assert(sv.subrange(0, sv.len() as int) =~= sv);
                proof {
                    crate::ast::lemma_stmts_view_len(stmts@);
                }
                let mut k: usize = 0;
                while k < stmts.len()
                    invariant
                        k <= stmts.len(),
                        sv == stmts_view(stmts@),
                        sv.len() == stmts@.len(),
                        emit_stmts_m(sv, pre) == emit_stmts_m(
                            sv.subrange(k as int, sv.len() as int),
                            st_of(self@, symbols@),
                        ),
                    decreases stmts.len() - k,
                {
                    proof {
                        lemma_stmts_view_index(stmts@, k as int);
                        assert(decreases_to!(*stmt => stmt->Block_0));
                        assert(decreases_to!(stmt->Block_0 => stmt->Block_0@));
                        assert(decreases_to!(stmt->Block_0@ => stmt->Block_0@[k as int]));
                        assert(stmt->Block_0@[k as int] == stmts@[k as int]);
                    }
                    let ghost suffix = sv.subrange(k as int, sv.len() as int);
                    assert(suffix.first() == sv[k as int]);
                    assert(suffix.drop_first() =~= sv.subrange(k as int + 1, sv.len() as int));
                    match self.emit_stmt(&stmts[k], symbols) {
                        Ok(()) => {},
                        Err(er) => {
                            return Err(er);
                        },
                    }
                    k = k + 1;
                }
                assert(sv.subrange(sv.len() as int, sv.len() as int) =~= Seq::<StmtV>::empty());
                Ok(())
            },
            Stmt::If(cond, tb, eb) => {
                match self.emit_expr(cond, symbols) {
                    Ok(()) => {},
                    Err(er) => {
                        return Err(er);
                    },
                }
                let ghost st1 = st_of(self@, symbols@);
                let tjump = self.emit_jump(u8::from(OpCode::JumpIfFalse));
                let ghost st2 = push_jump(st1, OpCode::JumpIfFalse);
                assert(st_of(self@, symbols@) =~= st2);
                match self.emit_stmt(&**tb, symbols) {
                    Ok(()) => {},
                    Err(er) => {
                        return Err(er);
                    },
                }
                let ghost st3 = emit_stmt_m(stmt_view(**tb), st2)->Ok_0;
                proof {
                    lemma_emit_stmt_m_mono(stmt_view(**tb), st2);
                }
                let ejump = self.emit_jump(u8::from(OpCode::Jump));
                self.patch_jump(tjump);
                let ghost st4 = patch(push_jump(st3, OpCode::Jump), st1.code.len() as int + 1);
                assert(st_of(self@, symbols@) =~= st4);
                match eb {
                    Some(es) => {
                        match self.emit_stmt(&**es, symbols) {
                            Ok(()) => {},
                            Err(er) => {
                                return Err(er);
                            },
                        }
                        proof {
                            lemma_emit_stmt_m_mono(stmt_view(**es), st4);
                        }
                        self.patch_jump(ejump);
                        assert(st_of(self@, symbols@) =~= patch(
                            emit_stmt_m(stmt_view(**es), st4)->Ok_0,
                            st3.code.len() as int + 1,
                        ));
                    },
                    None => {
                        self.patch_jump(ejump);
                        assert(st_of(self@, symbols@) =~= patch(st4, st3.code.len() as int + 1));
                    },
                }
                Ok(())
            },
            Stmt::While(cond, body) => {
                let loop_start = self.code.len();
                match self.emit_expr(cond, symbols) {
                    Ok(()) => {},
                    Err(er) => {
                        return Err(er);
                    },
                }
                let ghost st1 = st_of(self@, symbols@);
                let exit_jump = self.emit_jump(u8::from(OpCode::JumpIfFalse));
                let ghost st2 = push_jump(st1, OpCode::JumpIfFalse);
                assert(st_of(self@, symbols@) =~= st2);
                match self.emit_stmt(&**body, symbols) {
                    Ok(()) => {},
                    Err(er) => {
                        return Err(er);
                    },
                }
                let ghost st3 = emit_stmt_m(stmt_view(**body), st2)->Ok_0;
                proof {
                    lemma_emit_stmt_m_mono(stmt_view(**body), st2);
                }
                self.emit_byte(u8::from(OpCode::Jump));
                let ghost st4 = push_op(st3, OpCode::Jump);
                assert(st_of(self@, symbols@) =~= st4);
                let cur = self.code.len();
                let off = wrap32_back(loop_start, cur);
                self.emit_u32(off);
                self.patch_jump(exit_jump);
                assert(st_of(self@, symbols@) =~= patch(
                    push_u32(st4, wrap32(loop_start as int - st4.code.len() - 4)),
                    st1.code.len() as int + 1,
                ));
                Ok(())
            },
            Stmt::Expression(e) => {
                match self.emit_expr(e, symbols) {
                    Ok(()) => {},
                    Err(er) => {
                        return Err(er);
                    },
                }
                self.emit_byte(u8::from(OpCode::Pop));
                Ok(())
            },
            Stmt::Function(name, params, body) => {
                let jump_over = self.emit_jump(u8::from(OpCode::Jump));
                let ghost st1 = push_jump(pre, OpCode::Jump);
                assert(st_of(self@, symbols@) =~= st1);
                proof {
                    vstd::arithmetic::div_mod::lemma_mod_bound(
                        self@.code.len() as int,
                        0x1_0000_0000int,
                    );
                }
                let entry: u32 = ((self.code.len() as u64) % 0x1_0000_0000) as u32;
                assert(entry == wrap32(st1.code.len() as int));
                set_function_addr(&mut symbols.functions, name, entry);
                let mut saved_locals: Vec<(String, u32)> = Vec::new();
                core::mem::swap(&mut saved_locals, &mut symbols.locals);
                let saved_next = symbols.next_local_index;
                symbols.next_local_index = 0;
                let ghost saved_locals_v = st1.syms.locals;
                let ghost st2 = St {
                    syms: SymV {
                        functions: set_addr(st1.syms.functions, name@, entry),
                        locals: Seq::empty(),
                        next_local: 0,
                        ..st1.syms
                    },
                    ..st1
                };
                assert(symbols@.locals =~= Seq::<(Seq<char>, u32)>::empty());
                assert(st_of(self@, symbols@) =~= st2);
                let ghost pnames = names_view(params@);
                assert(pnames.subrange(0, pnames.len() as int) =~= pnames);
                let mut k: usize = 0;
                while k < params.len()
                    invariant
                        k <= params.len(),
                        pnames == names_view(params@),
                        pnames.len() == params@.len(),
                        seed_params_m(pnames, st2) == seed_params_m(
                            pnames.subrange(k as int, pnames.len() as int),
                            st_of(self@, symbols@),
                        ),
                    decreases params.len() - k,
                {
                    let ghost suffix = pnames.subrange(k as int, pnames.len() as int);
                    assert(suffix.first() == pnames[k as int]);
                    assert(suffix.drop_first() =~= pnames.subrange(
                        k as int + 1,
                        pnames.len() as int,
                    ));
                    if symbols.next_local_index == u32::MAX {
                        return Err(CompileError::TooManySlots);
                    }
                    let ghost cur_st = st_of(self@, symbols@);
                    let pn = params[k].clone();
                    let slot = symbols.next_local_index;
                    symbols.locals.push((pn, slot));
                    symbols.next_local_index = slot + 1;
                    assert(symbols@.locals =~= cur_st.syms.locals.push((pnames[k as int], slot)));
                    assert(st_of(self@, symbols@) =~= (St {
                        syms: SymV {
                            locals: cur_st.syms.locals.push((pnames[k as int], slot)),
                            next_local: (slot + 1) as u32,
                            ..cur_st.syms
                        },
                        ..cur_st
                    }));
                    k = k + 1;
                }
                assert(pnames.subrange(pnames.len() as int, pnames.len() as int) =~= Seq::<
                    Seq<char>,
                >::empty());
                let ghost st3 = seed_params_m(pnames, st2)->Ok_0;
                assert(st_of(self@, symbols@) == st3);
                let ghost bodyv = stmts_view(body@);
                assert(bodyv.subrange(0, bodyv.len() as int) =~= bodyv);
                proof {
                    crate::ast::lemma_stmts_view_len(body@);
                    lemma_seed_params_m_frame(pnames, st2);
                }
                let mut j: usize = 0;
                while j < body.len()
                    invariant
                        j <= body.len(),
                        bodyv == stmts_view(body@),
                        bodyv.len() == body@.len(),
                        emit_stmts_m(bodyv, st3) == emit_stmts_m(
                            bodyv.subrange(j as int, bodyv.len() as int),
                            st_of(self@, symbols@),
                        ),
                    decreases body.len() - j,
                {
                    proof {
                        lemma_stmts_view_index(body@, j as int);
                        assert(decreases_to!(*stmt => stmt->Function_2));
                        assert(decreases_to!(stmt->Function_2 => stmt->Function_2@));
                        assert(decreases_to!(stmt->Function_2@ => stmt->Function_2@[j as int]));
                        assert(stmt->Function_2@[j as int] == body@[j as int]);
                    }
                    let ghost suffix = bodyv.subrange(j as int, bodyv.len() as int);
                    assert(suffix.first() == bodyv[j as int]);
                    assert(suffix.drop_first() =~= bodyv.subrange(j as int + 1, bodyv.len() as int));
                    match self.emit_stmt(&body[j], symbols) {
                        Ok(()) => {},
                        Err(er) => {
                            return Err(er);
                        },
                    }
                    j = j + 1;
                }
                assert(bodyv.subrange(bodyv.len() as int, bodyv.len() as int) =~= Seq::<
                    StmtV,
                >::empty());
                let ghost st4 = emit_stmts_m(bodyv, st3)->Ok_0;
                assert(st_of(self@, symbols@) == st4);
                proof {
                    lemma_emit_stmts_m_mono(bodyv, st3);
                }
                self.emit_byte(u8::from(OpCode::Return));
                self.patch_jump(jump_over);
                let ghost st5 = patch(push_op(st4, OpCode::Return), pre.code.len() as int + 1);
                assert(st_of(self@, symbols@) =~= st5);
                symbols.locals = saved_locals;
                symbols.next_local_index = saved_next;
                assert(symbols@.locals == saved_locals_v);
                assert(st_of(self@, symbols@) =~= (St {
                    syms: SymV {
                        locals: saved_locals_v,
                        next_local: st1.syms.next_local,
                        ..st5.syms
                    },
                    ..st5
                }));
                Ok(())
            },
            Stmt::Class(_name, _fields, _methods) => {
                Ok(())
            },
            Stmt::FieldSet(_obj, _f, _v) => Err(CompileError::Unsupported),
        }
    }

    /// Resolves every pending call site against the function metadata; a
    /// callee never defined aborts finalization. Exactly as `finalize_m`.
    #[verifier::rlimit(50)]
    #[verifier::loop_isolation(false)]
    pub fn finalize(&mut self, symbols: &SymbolTable) -> (r: Result<(), CompileError>)
        requires
            patches_bounded(old(self)@.patches, old(self)@.code.len() as int),
        ensures
            match finalize_m(old(self)@.code, old(self)@.patches, symbols@.functions) {
                Ok(code) => r is Ok && final(self)@ == (EmV { code, ..old(self)@ }),
                Err(k) => r is Err && r->Err_0@ == k,
            },
    {
        let ghost pv = self@.patches;
        let ghost fns = symbols@.functions;
        assert(pv.subrange(0, pv.len() as int) =~= pv);
        let mut k: usize = 0;
        while k < self.calls_to_patch.len()
            invariant
                k <= self.calls_to_patch.len(),
                pv == self@.patches,
                fns == symbols@.functions,
                pv.len() == self.calls_to_patch@.len(),
                self@.constants == old(self)@.constants,
                self@.patches == old(self)@.patches,
                self@.code.len() == old(self)@.code.len(),
                patches_bounded(pv, self@.code.len() as int),
                finalize_m(old(self)@.code, pv, fns) == finalize_m(
                    self@.code,
                    pv.subrange(k as int, pv.len() as int),
                    fns,
                ),
            decreases self.calls_to_patch.len() - k,
        {
            let ghost suffix = pv.subrange(k as int, pv.len() as int);
            assert(suffix.first() == pv[k as int]);
            assert(suffix.drop_first() =~= pv.subrange(k as int + 1, pv.len() as int));
            let ghost code_before = self@.code;
            let ix = self.calls_to_patch[k].0;
            let name = self.calls_to_patch[k].1.clone();
            assert(pv[k as int] == (ix as int, name@));
            assert(pv[k as int].0 == ix as int);
            let n = self.code.len();
            assert(n == self@.code.len());
            assert(ix + 4 <= n);
            match lookup_function(&symbols.functions, &name) {
                Some(addr) => {
                    let b0: u8 = (addr & 0xff) as u8;
                    let b1: u8 = ((addr >> 8) & 0xff) as u8;
                    let b2: u8 = ((addr >> 16) & 0xff) as u8;
                    let b3: u8 = ((addr >> 24) & 0xff) as u8;
                    self.code[ix] = b0;
                    self.code[ix + 1] = b1;
                    self.code[ix + 2] = b2;
                    self.code[ix + 3] = b3;
                    assert(self@.code =~= write4(code_before, ix as int, le4(addr)));
                },
                None => {
                    return Err(CompileError::UndefinedFunction(name));
                },
            }
            k = k + 1;
        }
        assert(pv.subrange(pv.len() as int, pv.len() as int) =~= Seq::<(int, Seq<char>)>::empty());
        Ok(())
    }
}

} // verus!
