//! Guarantees of the emitter stated on their own, proved from the models
//! that the executable code is verified against.
use vstd::prelude::*;

use crate::ast::{ExprV, Op, StmtV};
use crate::bytecode::{OpCode, le4, opcode_byte, wrap32};
use crate::emitter::{ErrV, St, emit_expr_m, emit_stmt_m, finalize_m, lemma_emit_stmt_m_mono,
    lemma_write4_facts, load_var_m, op_opcode, patch, patches_bounded, patches_ordered,
    push_jump, push_op, push_u32, write4};
use crate::semant::lookup;

verus! {

/// Operand order and precedence: the code emitted for a binary operation
/// is the left operand's code, then the right operand's code, then the
/// one-byte operator, so operands evaluate strictly left to right before
/// the operator executes, and grouping decided by the parser's precedence
/// levels is preserved in the instruction order.
pub proof fn lemma_binary_operand_order(l: ExprV, op: Op, r: ExprV, st: St)
    requires
        emit_expr_m(l, st) is Ok,
        emit_expr_m(r, emit_expr_m(l, st)->Ok_0) is Ok,
    ensures
        ({
            let st1 = emit_expr_m(l, st)->Ok_0;
            let st2 = emit_expr_m(r, st1)->Ok_0;
            emit_expr_m(ExprV::Binary(Box::new(l), op, Box::new(r)), st) == Ok::<St, ErrV>(
                push_op(st2, op_opcode(op)),
            )
        }),
{
}

/// Emitting an expression never touches the symbol table: slots are
/// assigned only by statements.
pub proof fn lemma_expr_syms_frame(e: ExprV, st: St)
    ensures
        emit_expr_m(e, st) is Ok ==> (emit_expr_m(e, st)->Ok_0).syms == st.syms,
    decreases e,
{
    match e {
        ExprV::NewArray(sz) => {
            lemma_expr_syms_frame(*sz, st);
        },
        ExprV::ArrayAccess(_n, ix) => {
            match load_var_m(st, _n) {
                Ok(st1) => {
                    lemma_expr_syms_frame(*ix, st1);
                },
                Err(_) => {},
            }
        },
        ExprV::Call(_n, args) => {
            lemma_args_syms_frame(args, st);
        },
        ExprV::Binary(l, _op, r) => {
            lemma_expr_syms_frame(*l, st);
            match emit_expr_m(*l, st) {
                Ok(st1) => {
                    lemma_expr_syms_frame(*r, st1);
                },
                Err(_) => {},
            }
        },
        _ => {},
    }
}

pub proof fn lemma_args_syms_frame(args: Seq<ExprV>, st: St)
    ensures
        crate::emitter::emit_args_m(args, st) is Ok ==> (crate::emitter::emit_args_m(args, st)->Ok_0).syms
            == st.syms,
    decreases args,
{
    if args.len() > 0 {
        lemma_expr_syms_frame(args.first(), st);
        match emit_expr_m(args.first(), st) {
            Ok(st1) => {
                lemma_args_syms_frame(args.drop_first(), st1);
            },
            Err(_) => {},
        }
    }
}

/// Global slot assignment: a variable declaration gives the new name
/// exactly the next free slot index and bumps the counter by one; the
/// bindings already made stay untouched, so indices run 0, 1, 2, ... in
/// declaration order and are never reused.
pub proof fn lemma_global_slot_order(n: Seq<char>, e: ExprV, st: St)
    requires
        emit_expr_m(e, st) is Ok,
        st.syms.next_var < u32::MAX,
    ensures
        ({
            let st2 = emit_stmt_m(StmtV::VarDecl(n, e), st)->Ok_0;
            &&& emit_stmt_m(StmtV::VarDecl(n, e), st) is Ok
            &&& st2.syms.variables == st.syms.variables.push((n, st.syms.next_var))
            &&& st2.syms.next_var == st.syms.next_var + 1
        }),
{
    lemma_expr_syms_frame(e, st);
}

/// Local scope isolation, resolution side: a name bound in the local
/// scope loads from its local slot, even when a global of the same name
/// exists; only a name absent from the local scope falls back to the
/// global slot, and a name absent from both is a fatal error.
pub proof fn lemma_local_shadows_global(st: St, name: Seq<char>)
    ensures
        lookup(st.syms.locals, name) is Some ==> load_var_m(st, name) == Ok::<St, ErrV>(
            push_u32(push_op(st, OpCode::LoadLocal), lookup(st.syms.locals, name)->Some_0),
        ),
        (lookup(st.syms.locals, name) is None && lookup(st.syms.variables, name) is Some)
            ==> load_var_m(st, name) == Ok::<St, ErrV>(
            push_u32(push_op(st, OpCode::LoadGlobal), lookup(st.syms.variables, name)->Some_0),
        ),
        (lookup(st.syms.locals, name) is None && lookup(st.syms.variables, name) is None)
            ==> load_var_m(st, name) == Err::<St, ErrV>(ErrV::UndefinedVariable(name)),
{
}

/// Local scope isolation, lifecycle side: emitting a function definition
/// leaves the enclosing local scope exactly as it was, so references after
/// the body resolve against the outer bindings again.
pub proof fn lemma_function_restores_scope(
    name: Seq<char>,
    params: Seq<Seq<char>>,
    body: Seq<StmtV>,
    st: St,
)
    requires
        emit_stmt_m(StmtV::Function(name, params, body), st) is Ok,
    ensures
        ({
            let st2 = emit_stmt_m(StmtV::Function(name, params, body), st)->Ok_0;
            &&& st2.syms.locals == st.syms.locals
            &&& st2.syms.next_local == st.syms.next_local
        }),
{
}


/// Jump offsets of a while loop, decoded from the landing side: the exit
/// jump's offset reaches, from just past its placeholder, the instruction
/// after the loop's closing backward jump; the backward jump's offset,
/// computed immediately rather than backpatched, reaches the loop start,
/// where the condition's code begins.
#[verifier::rlimit(100)]
#[verifier::spinoff_prover]
pub proof fn lemma_while_jump_offsets(c: ExprV, b: StmtV, st: St)
    requires
        emit_stmt_m(StmtV::While(c, Box::new(b)), st) is Ok,
    ensures
        ({
            let loop_start = st.code.len() as int;
            let st1 = emit_expr_m(c, st)->Ok_0;
            let p = st1.code.len() as int + 1;
            let st3 = emit_stmt_m(b, push_jump(st1, OpCode::JumpIfFalse))->Ok_0;
            let bpos = st3.code.len() as int + 1;
            let fin = emit_stmt_m(StmtV::While(c, Box::new(b)), st)->Ok_0;
            &&& fin.code.len() == st3.code.len() + 5
            &&& fin.code[bpos - 1] == opcode_byte(OpCode::Jump)
            &&& fin.code.subrange(bpos, bpos + 4) == le4(wrap32(loop_start - (bpos + 4)))
            &&& fin.code[p - 1] == opcode_byte(OpCode::JumpIfFalse)
            &&& fin.code.subrange(p, p + 4) == le4(wrap32(fin.code.len() - (p + 4)))
        }),
{
    let loop_start = st.code.len() as int;
    let st1 = emit_expr_m(c, st)->Ok_0;
    let p = st1.code.len() as int + 1;
    let st2 = push_jump(st1, OpCode::JumpIfFalse);
    let st3 = emit_stmt_m(b, st2)->Ok_0;
    lemma_emit_stmt_m_mono(b, st2);
    crate::emitter::lemma_emit_stmt_m_prefix(b, st2);
    assert(st3.code.subrange(0, st2.code.len() as int)[p - 1] == st2.code[p - 1]);
    assert(st3.code[p - 1] == opcode_byte(OpCode::JumpIfFalse));
    let bpos = st3.code.len() as int + 1;
    let st4 = push_op(st3, OpCode::Jump);
    let st5 = push_u32(st4, wrap32(loop_start - st4.code.len() - 4));
    assert(st5.code[bpos - 1] == opcode_byte(OpCode::Jump));
    assert(st5.code.subrange(bpos, bpos + 4) =~= le4(wrap32(loop_start - (bpos + 4))));
    assert(st5.code[p - 1] == opcode_byte(OpCode::JumpIfFalse));
    lemma_write4_facts(st5.code, p, le4(wrap32(st5.code.len() - p - 4)));
    let fin = patch(st5, p);
    assert(fin.code.subrange(bpos, bpos + 4) =~= st5.code.subrange(bpos, bpos + 4));
    assert(emit_stmt_m(StmtV::While(c, Box::new(b)), st)->Ok_0 == fin);
}

/// Jump offsets of a conditional, decoded from the landing side: the
/// jump-if-false offset reaches, from just past its placeholder, the first
/// byte of the else branch (the end of the statement when there is none),
/// and the skip jump's offset reaches the first byte after the whole
/// statement: each jump lands at the start of the branch actually taken.
#[verifier::rlimit(100)]
#[verifier::spinoff_prover]
pub proof fn lemma_if_jump_offsets(c: ExprV, t: StmtV, eo: Option<Box<StmtV>>, st: St)
    requires
        emit_stmt_m(StmtV::If(c, Box::new(t), eo), st) is Ok,
    ensures
        ({
            let st1 = emit_expr_m(c, st)->Ok_0;
            let pa = st1.code.len() as int + 1;
            let st3 = emit_stmt_m(t, push_jump(st1, OpCode::JumpIfFalse))->Ok_0;
            let pb = st3.code.len() as int + 1;
            let else_start = pb + 4;
            let fin = emit_stmt_m(StmtV::If(c, Box::new(t), eo), st)->Ok_0;
            &&& fin.code[pa - 1] == opcode_byte(OpCode::JumpIfFalse)
            &&& fin.code.subrange(pa, pa + 4) == le4(wrap32(else_start - (pa + 4)))
            &&& fin.code[pb - 1] == opcode_byte(OpCode::Jump)
            &&& fin.code.subrange(pb, pb + 4) == le4(wrap32(fin.code.len() - (pb + 4)))
        }),
{
    let st1 = emit_expr_m(c, st)->Ok_0;
    let pa = st1.code.len() as int + 1;
    let st2 = push_jump(st1, OpCode::JumpIfFalse);
    let st3 = emit_stmt_m(t, st2)->Ok_0;
    lemma_emit_stmt_m_mono(t, st2);
    crate::emitter::lemma_emit_stmt_m_prefix(t, st2);
    assert(st3.code.subrange(0, st2.code.len() as int)[pa - 1] == st2.code[pa - 1]);
    assert(st3.code[pa - 1] == opcode_byte(OpCode::JumpIfFalse));
    let pb = st3.code.len() as int + 1;
    let st4pre = push_jump(st3, OpCode::Jump);
    lemma_write4_facts(st4pre.code, pa, le4(wrap32(st4pre.code.len() - pa - 4)));
    let st4 = patch(st4pre, pa);
    assert(st4.code.subrange(pa, pa + 4) == le4(wrap32((pb + 4) - (pa + 4))));
    assert(st4.code[pa - 1] == st4pre.code[pa - 1]);
    assert(st4pre.code[pa - 1] == opcode_byte(OpCode::JumpIfFalse));
    assert(st4.code[pb - 1] == st4pre.code[pb - 1]);
    assert(st4pre.code[pb - 1] == opcode_byte(OpCode::Jump));
    match eo {
        Some(eb) => {
            let st5 = emit_stmt_m(*eb, st4)->Ok_0;
            crate::emitter::lemma_emit_stmt_m_prefix(*eb, st4);
            lemma_emit_stmt_m_mono(*eb, st4);
            assert(st5.code.subrange(0, st4.code.len() as int) == st4.code);
            assert(st5.code.subrange(pa, pa + 4) =~= st4.code.subrange(pa, pa + 4));
            assert(st5.code[pa - 1] == st4.code[pa - 1]);
            assert(st5.code[pb - 1] == st4.code[pb - 1]);
            lemma_write4_facts(st5.code, pb, le4(wrap32(st5.code.len() - pb - 4)));
            let fin = patch(st5, pb);
            assert(fin.code.subrange(pa, pa + 4) =~= st5.code.subrange(pa, pa + 4));
            assert(emit_stmt_m(StmtV::If(c, Box::new(t), eo), st)->Ok_0 == fin);
        },
        None => {
            lemma_write4_facts(st4.code, pb, le4(wrap32(st4.code.len() - pb - 4)));
            let fin = patch(st4, pb);
            assert(fin.code.subrange(pa, pa + 4) =~= st4.code.subrange(pa, pa + 4));
            assert(emit_stmt_m(StmtV::If(c, Box::new(t), eo), st)->Ok_0 == fin);
        },
    }
}

/// Ordered sites are monotone across any distance.
proof fn lemma_ordered_ge(patches: Seq<(int, Seq<char>)>, a: int, b: int)
    requires
        patches_ordered(patches),
        0 <= a < b < patches.len(),
    ensures
        patches[a].0 + 4 <= patches[b].0,
    decreases b - a,
{
    if a + 1 < b {
        lemma_ordered_ge(patches, a + 1, b);
    }
}

/// Finalization writes nothing below the lowest call site.
proof fn lemma_finalize_untouched(
    code: Seq<u8>,
    patches: Seq<(int, Seq<char>)>,
    fns: Seq<(Seq<char>, u32)>,
    lo: int,
)
    requires
        finalize_m(code, patches, fns) is Ok,
        patches_bounded(patches, code.len() as int),
        forall|j: int| 0 <= j < patches.len() ==> lo <= #[trigger] patches[j].0,
        0 <= lo,
    ensures
        (finalize_m(code, patches, fns)->Ok_0).len() == code.len(),
        forall|q: int| 0 <= q < lo ==> (finalize_m(code, patches, fns)->Ok_0)[q] == code[q],
    decreases patches.len(),
{
    if patches.len() > 0 {
        let ix = patches[0].0;
        let nm = patches[0].1;
        match lookup(fns, nm) {
            Some(addr) => {
                let code2 = write4(code, ix, le4(addr));
                lemma_write4_facts(code, ix, le4(addr));
                let tail = patches.drop_first();
                assert forall|j: int| 0 <= j < tail.len() implies lo <= #[trigger] tail[j].0
                    && 0 <= tail[j].0 && tail[j].0 + 4 <= code2.len() by {
                    assert(tail[j] == patches[j + 1]);
                }
                lemma_finalize_untouched(code2, tail, fns, lo);
            },
            None => {},
        }
    }
}

/// Forward call resolution: once finalization succeeds, every recorded
/// call site holds exactly the little-endian entry address of its callee,
/// as the function metadata gives it; the code length is unchanged. The
/// emitter records sites in ascending, non-overlapping order, so the
/// precondition is what emission leaves behind.
#[verifier::rlimit(100)]
#[verifier::spinoff_prover]
pub proof fn lemma_finalize_patches_sites(
    code: Seq<u8>,
    patches: Seq<(int, Seq<char>)>,
    fns: Seq<(Seq<char>, u32)>,
    j: int,
)
    requires
        finalize_m(code, patches, fns) is Ok,
        patches_bounded(patches, code.len() as int),
        patches_ordered(patches),
        0 <= j < patches.len(),
    ensures
        (finalize_m(code, patches, fns)->Ok_0).len() == code.len(),
        lookup(fns, patches[j].1) is Some,
        (finalize_m(code, patches, fns)->Ok_0).subrange(patches[j].0, patches[j].0 + 4) == le4(
            lookup(fns, patches[j].1)->Some_0,
        ),
    decreases patches.len(),
{
    let ix = patches[0].0;
    let nm = patches[0].1;
    match lookup(fns, nm) {
        Some(addr) => {
            let code2 = write4(code, ix, le4(addr));
            lemma_write4_facts(code, ix, le4(addr));
            let tail = patches.drop_first();
            assert forall|q: int| 0 <= q < tail.len() implies 0 <= #[trigger] tail[q].0
                && tail[q].0 + 4 <= code2.len() by {
                assert(tail[q] == patches[q + 1]);
            }
            assert forall|q: int| 0 <= q < tail.len() - 1 implies #[trigger] tail[q].0 + 4
                <= tail[q + 1].0 by {
                assert(tail[q] == patches[q + 1]);
                assert(tail[q + 1] == patches[q + 2]);
            }
            if j == 0 {
                assert forall|q: int| 0 <= q < tail.len() implies ix + 4 <= #[trigger] tail[
                    q
                ].0 by {
                    assert(tail[q] == patches[q + 1]);
                    lemma_ordered_ge(patches, 0, q + 1);
                }
                lemma_finalize_untouched(code2, tail, fns, ix + 4);
                let out = finalize_m(code2, tail, fns)->Ok_0;
                assert(out.subrange(ix, ix + 4) =~= code2.subrange(ix, ix + 4));
                assert(finalize_m(code, patches, fns)->Ok_0 == out);
            } else {
                lemma_finalize_patches_sites(code2, tail, fns, j - 1);
                assert(tail[j - 1] == patches[j]);
                assert(finalize_m(code, patches, fns)->Ok_0 == finalize_m(code2, tail, fns)->Ok_0);
            }
        },
        None => {},
    }
}

} // verus!
