//! The recursive-descent parser: consumes the token stream left to right
//! with fixed-depth lookahead, produces the ordered top-level statements,
//! and registers function and method names (with placeholder addresses)
//! into the symbol table as their definitions are encountered.
//!
//! Parsing is specified by the functional model `p_program` / `p_stmt` /
//! `p_expr` over token views; the executable parser is proved to realize
//! it: it returns exactly the statements the model gives, advances to the
//! model's position, and extends the symbol table's function list by
//! exactly the registered names in order, leaving all other bindings
//! unchanged. Every malformed construct is a fatal error.
use vstd::prelude::*;

use crate::ast::{Expr, ExprV, Op, Stmt, StmtV, exprs_view, names_view, stmts_view,
    lemma_exprs_view_index, lemma_stmts_view_index};
use crate::lexer::{TokV, Token, toks_view};
use crate::semant::{FunctionInfo, SymV, SymbolTable, fns_view, pairs_view};

verus! {

/// A fatal parse error: the whole compilation aborts at the first one.
#[derive(Debug)]
pub enum ParseError {
    Syntax,
}

/// The variant of a token, without its payload; what the parser's
/// dispatch looks at.
#[derive(Debug, Clone, Copy, PartialEq, Eq, Structural)]
pub enum TokKind {
    Var,
    Mut,
    Func,
    Class,
    Return,
    Print,
    Int,
    Void,
    StrType,
    New,
    If,
    Else,
    While,
    Identifier,
    Number,
    StringLit,
    Equals,
    Plus,
    Minus,
    Star,
    Slash,
    Comma,
    Dot,
    LessThan,
    LParen,
    RParen,
    LBrace,
    RBrace,
    LBracket,
    RBracket,
    Newline,
    EOF,
}

pub open spec fn kind_of(t: TokV) -> TokKind {
    match t {
        TokV::Var => TokKind::Var,
        TokV::Mut => TokKind::Mut,
        TokV::Func => TokKind::Func,
        TokV::Class => TokKind::Class,
        TokV::Return => TokKind::Return,
        TokV::Print => TokKind::Print,
        TokV::Int => TokKind::Int,
        TokV::Void => TokKind::Void,
        TokV::StrType => TokKind::StrType,
        TokV::New => TokKind::New,
        TokV::If => TokKind::If,
        TokV::Else => TokKind::Else,
        TokV::While => TokKind::While,
        TokV::Identifier(_) => TokKind::Identifier,
        TokV::Number(_) => TokKind::Number,
        TokV::StringLit(_) => TokKind::StringLit,
        TokV::Equals => TokKind::Equals,
        TokV::Plus => TokKind::Plus,
        TokV::Minus => TokKind::Minus,
        TokV::Star => TokKind::Star,
        TokV::Slash => TokKind::Slash,
        TokV::Comma => TokKind::Comma,
        TokV::Dot => TokKind::Dot,
        TokV::LessThan => TokKind::LessThan,
        TokV::LParen => TokKind::LParen,
        TokV::RParen => TokKind::RParen,
        TokV::LBrace => TokKind::LBrace,
        TokV::RBrace => TokKind::RBrace,
        TokV::LBracket => TokKind::LBracket,
        TokV::RBracket => TokKind::RBracket,
        TokV::Newline => TokKind::Newline,
        TokV::EOF => TokKind::EOF,
    }
}

/// The token at `pos`; the end marker stands in for any position past the
/// end, mirroring the fixed-depth lookahead.
pub open spec fn tv(t: Seq<TokV>, pos: int) -> TokV {
    if 0 <= pos < t.len() {
        t[pos]
    } else {
        TokV::EOF
    }
}

/// Tokens not yet consumed: the parser's termination measure.
pub open spec fn rem(t: Seq<TokV>, pos: int) -> int {
    if pos < t.len() {
        t.len() - pos
    } else {
        0
    }
}

/// The position after a sub-parse that began at `pos`. The parser always
/// consumes at least one token on success, so in every reachable state
/// this equals `p` itself; the clamp pins that progress into the
/// termination measure.
pub open spec fn bump(t: Seq<TokV>, pos: int, p: int) -> int {
    if pos < p <= t.len() {
        p
    } else {
        pos + 1
    }
}

/// Registered names paired with the placeholder address 0.
pub open spec fn regs_pairs(regs: Seq<Seq<char>>) -> Seq<(Seq<char>, u32)> {
    regs.map_values(|n: Seq<char>| (n, 0u32))
}

/// The symbol table after registering `regs`, in order; nothing else
/// changes.
pub open spec fn syms_plus(sy: SymV, regs: Seq<Seq<char>>) -> SymV {
    SymV { functions: sy.functions + regs_pairs(regs), ..sy }
}

/// The 32-bit two's-complement image of a 64-bit literal, as the `as`
/// conversion of an integer token into an `Integer` node computes it.
pub open spec fn wrap_i32(v: int) -> i32 {
    let m = v % 0x1_0000_0000;
    if m >= 0x8000_0000 {
        (m - 0x1_0000_0000) as i32
    } else {
        m as i32
    }
}

/// The model of a whole program: statements until the end marker, blank
/// lines skipped.
pub open spec fn p_program(t: Seq<TokV>, pos: int) -> Option<(Seq<StmtV>, int, Seq<Seq<char>>)>
    decreases rem(t, pos), 20int,
{
    if tv(t, pos) is EOF {
        Some((Seq::empty(), pos, Seq::empty()))
    } else if tv(t, pos) is Newline {
        p_program(t, pos + 1)
    } else {
        match p_stmt(t, pos) {
            Some((sv, p1, regs)) => match p_program(t, bump(t, pos, p1)) {
                Some((rest, p2, regs2)) => Some((seq![sv] + rest, p2, regs + regs2)),
                None => None,
            },
            None => None,
        }
    }
}

/// The model of one statement, dispatched on the leading token with
/// 2-token lookahead for the function/declaration split.
pub open spec fn p_stmt(t: Seq<TokV>, pos: int) -> Option<(StmtV, int, Seq<Seq<char>>)>
    decreases rem(t, pos), 10int,
{
    match tv(t, pos) {
        TokV::Var => p_decl(t, pos),
        TokV::Int => p_typed(t, pos),
        TokV::Void => p_typed(t, pos),
        TokV::StrType => p_typed(t, pos),
        TokV::If => p_if(t, pos),
        TokV::While => p_while(t, pos),
        TokV::LBrace => p_block_stmt(t, pos),
        TokV::Class => p_class(t, pos),
        TokV::Return => p_return(t, pos),
        TokV::Print => p_print(t, pos),
        TokV::Identifier(_) => match p_expr(t, pos) {
            Some((e, p1r)) => {
                let p1 = bump(t, pos, p1r);
                if tv(t, p1) is Equals {
                    match p_expr(t, p1 + 1) {
                        Some((v, p2)) => match e {
                            ExprV::Variable(n) => Some((StmtV::Assign(n, v), p2, Seq::empty())),
                            ExprV::ArrayAccess(n, ix) => Some(
                                (StmtV::ArraySet(n, *ix, v), p2, Seq::empty()),
                            ),
                            ExprV::GetField(obj, f) => Some(
                                (StmtV::FieldSet(obj, f, v), p2, Seq::empty()),
                            ),
                            _ => None,
                        },
                        None => None,
                    }
                } else {
                    Some((StmtV::Expression(e), p1, Seq::empty()))
                }
            },
            None => None,
        },
        _ => match p_expr(t, pos) {
            Some((e, p1)) => Some((StmtV::Expression(e), p1, Seq::empty())),
            None => None,
        },
    }
}

/// A leading type keyword: a function definition if an identifier and `(`
/// follow, else a typed variable declaration.
pub open spec fn p_typed(t: Seq<TokV>, pos: int) -> Option<(StmtV, int, Seq<Seq<char>>)>
    decreases rem(t, pos), 9int,
{
    if (tv(t, pos + 1) is Identifier) && (tv(t, pos + 2) is LParen) {
        p_function(t, pos)
    } else {
        p_decl(t, pos)
    }
}

/// `var`/typed declaration: keyword, name, `=`, initializer.
pub open spec fn p_decl(t: Seq<TokV>, pos: int) -> Option<(StmtV, int, Seq<Seq<char>>)>
    decreases rem(t, pos), 5int,
{
    if tv(t, pos) is EOF {
        None
    } else if tv(t, pos + 1) is Identifier {
        let n = tv(t, pos + 1)->Identifier_0;
        if tv(t, pos + 2) is Equals {
            match p_expr(t, pos + 3) {
                Some((e, p1)) => Some((StmtV::VarDecl(n, e), p1, Seq::empty())),
                None => None,
            }
        } else {
            None
        }
    } else {
        None
    }
}

/// `return` with its value.
pub open spec fn p_return(t: Seq<TokV>, pos: int) -> Option<(StmtV, int, Seq<Seq<char>>)>
    decreases rem(t, pos), 5int,
{
    if tv(t, pos) is EOF {
        None
    } else {
        match p_expr(t, pos + 1) {
            Some((e, p1)) => Some((StmtV::Return(e), p1, Seq::empty())),
            None => None,
        }
    }
}

/// `print` with its value.
pub open spec fn p_print(t: Seq<TokV>, pos: int) -> Option<(StmtV, int, Seq<Seq<char>>)>
    decreases rem(t, pos), 5int,
{
    if tv(t, pos) is EOF {
        None
    } else {
        match p_expr(t, pos + 1) {
            Some((e, p1)) => Some((StmtV::Print(e), p1, Seq::empty())),
            None => None,
        }
    }
}

/// `if` condition, a single then statement, and optionally `else` with a
/// single statement.
pub open spec fn p_if(t: Seq<TokV>, pos: int) -> Option<(StmtV, int, Seq<Seq<char>>)>
    decreases rem(t, pos), 5int,
{
    if tv(t, pos) is EOF {
        None
    } else {
        match p_expr(t, pos + 1) {
            Some((c, p1r)) => {
                let p1 = bump(t, pos, p1r);
                match p_stmt(t, p1) {
                    Some((tb, p2r, regs1)) => {
                        let p2 = bump(t, p1, p2r);
                        if tv(t, p2) is Else {
                            match p_stmt(t, p2 + 1) {
                                Some((eb, p3, regs2)) => Some(
                                    (
                                        StmtV::If(c, Box::new(tb), Some(Box::new(eb))),
                                        p3,
                                        regs1 + regs2,
                                    ),
                                ),
                                None => None,
                            }
                        } else {
                            Some((StmtV::If(c, Box::new(tb), None), p2, regs1))
                        }
                    },
                    None => None,
                }
            },
            None => None,
        }
    }
}

/// `while` condition and a single body statement.
pub open spec fn p_while(t: Seq<TokV>, pos: int) -> Option<(StmtV, int, Seq<Seq<char>>)>
    decreases rem(t, pos), 5int,
{
    if tv(t, pos) is EOF {
        None
    } else {
        match p_expr(t, pos + 1) {
            Some((c, p1r)) => {
                let p1 = bump(t, pos, p1r);
                match p_stmt(t, p1) {
                    Some((b, p2, regs)) => Some((StmtV::While(c, Box::new(b)), p2, regs)),
                    None => None,
                }
            },
            None => None,
        }
    }
}

/// A brace block as a statement.
pub open spec fn p_block_stmt(t: Seq<TokV>, pos: int) -> Option<(StmtV, int, Seq<Seq<char>>)>
    decreases rem(t, pos), 5int,
{
    if tv(t, pos) is EOF {
        None
    } else {
        match p_items(t, pos + 1) {
            Some((ss, p1, regs)) => Some((StmtV::Block(ss), p1, regs)),
            None => None,
        }
    }
}

/// The statements of a block, up to and including the closing `}`; blank
/// lines skipped; a missing `}` is fatal.
pub open spec fn p_items(t: Seq<TokV>, pos: int) -> Option<(Seq<StmtV>, int, Seq<Seq<char>>)>
    decreases rem(t, pos), 12int,
{
    if tv(t, pos) is EOF {
        None
    } else if tv(t, pos) is RBrace {
        Some((Seq::empty(), pos + 1, Seq::empty()))
    } else if tv(t, pos) is Newline {
        p_items(t, pos + 1)
    } else {
        match p_stmt(t, pos) {
            Some((sv, p1, regs)) => match p_items(t, bump(t, pos, p1)) {
                Some((rest, p2, regs2)) => Some((seq![sv] + rest, p2, regs + regs2)),
                None => None,
            },
            None => None,
        }
    }
}

/// A parenthesized, comma-separated, typed parameter list, ending just
/// past the closing `)`; only the names are kept.
pub open spec fn p_params(t: Seq<TokV>, pos: int) -> Option<(Seq<Seq<char>>, int)>
    decreases rem(t, pos), 5int,
{
    if tv(t, pos) is RParen {
        Some((Seq::empty(), pos + 1))
    } else {
        p_params_more(t, pos)
    }
}

pub open spec fn p_params_more(t: Seq<TokV>, pos: int) -> Option<(Seq<Seq<char>>, int)>
    decreases rem(t, pos), 4int,
{
    match tv(t, pos) {
        TokV::Int | TokV::Void | TokV::StrType => {
            if tv(t, pos + 1) is Identifier {
                let pn = tv(t, pos + 1)->Identifier_0;
                if tv(t, pos + 2) is Comma {
                    match p_params_more(t, pos + 3) {
                        Some((rest, p2)) => Some((seq![pn] + rest, p2)),
                        None => None,
                    }
                } else if tv(t, pos + 2) is RParen {
                    Some((seq![pn], pos + 3))
                } else {
                    None
                }
            } else {
                None
            }
        },
        _ => None,
    }
}

/// A function definition: return type, name, parameters, brace body. The
/// name is registered before the body is parsed, so forward calls to it
/// resolve later; the body's own registrations follow it in order.
pub open spec fn p_function(t: Seq<TokV>, pos: int) -> Option<(StmtV, int, Seq<Seq<char>>)>
    decreases rem(t, pos), 5int,
{
    if tv(t, pos + 1) is Identifier {
        let name = tv(t, pos + 1)->Identifier_0;
        if tv(t, pos + 2) is LParen {
            match p_params(t, pos + 3) {
                Some((params, p1r)) => {
                    let p1 = bump(t, pos, p1r);
                    match p_body(t, p1) {
                        Some((body, p2, regs)) => Some(
                            (StmtV::Function(name, params, body), p2, seq![name] + regs),
                        ),
                        None => None,
                    }
                },
                None => None,
            }
        } else {
            None
        }
    } else {
        None
    }
}

/// A brace-delimited body, as its raw statement list.
pub open spec fn p_body(t: Seq<TokV>, pos: int) -> Option<(Seq<StmtV>, int, Seq<Seq<char>>)>
    decreases rem(t, pos), 13int,
{
    if tv(t, pos) is EOF {
        None
    } else {
        p_items(t, pos + 1)
    }
}

/// A class definition: name, then fields and methods told apart by the
/// same 2-token lookahead as at top level.
pub open spec fn p_class(t: Seq<TokV>, pos: int) -> Option<(StmtV, int, Seq<Seq<char>>)>
    decreases rem(t, pos), 5int,
{
    if tv(t, pos) is EOF {
        None
    } else if tv(t, pos + 1) is Identifier {
        let name = tv(t, pos + 1)->Identifier_0;
        if tv(t, pos + 2) is LBrace {
            match p_members(t, pos + 3, name) {
                Some((fields, methods, p1, regs)) => Some(
                    (StmtV::Class(name, fields, methods), p1, regs),
                ),
                None => None,
            }
        } else {
            None
        }
    } else {
        None
    }
}

/// The members of a class body, up to and including the closing `}`.
pub open spec fn p_members(t: Seq<TokV>, pos: int, class: Seq<char>) -> Option<
    (Seq<Seq<char>>, Seq<StmtV>, int, Seq<Seq<char>>),
>
    decreases rem(t, pos), 8int,
{
    if tv(t, pos) is EOF {
        None
    } else if tv(t, pos) is RBrace {
        Some((Seq::empty(), Seq::empty(), pos + 1, Seq::empty()))
    } else if tv(t, pos) is Newline {
        p_members(t, pos + 1, class)
    } else if (tv(t, pos + 1) is Identifier) && (tv(t, pos + 2) is LParen) {
        match p_method(t, pos, class) {
            Some((m, p1, regs)) => match p_members(t, bump(t, pos, p1), class) {
                Some((fields, methods, p2, regs2)) => Some(
                    (fields, seq![m] + methods, p2, regs + regs2),
                ),
                None => None,
            },
            None => None,
        }
    } else {
        match tv(t, pos) {
            TokV::Int | TokV::StrType | TokV::Identifier(_) => {
                if tv(t, pos + 1) is Identifier {
                    let fname = tv(t, pos + 1)->Identifier_0;
                    match p_members(t, pos + 2, class) {
                        Some((fields, methods, p2, regs2)) => Some(
                            (seq![fname] + fields, methods, p2, regs2),
                        ),
                        None => None,
                    }
                } else {
                    None
                }
            },
            _ => None,
        }
    }
}

/// A method definition: registered under the mangled `Class_Method` name,
/// with an implicit leading `this` parameter.
pub open spec fn p_method(t: Seq<TokV>, pos: int, class: Seq<char>) -> Option<
    (StmtV, int, Seq<Seq<char>>),
>
    decreases rem(t, pos), 5int,
{
    if tv(t, pos + 1) is Identifier {
        let m = tv(t, pos + 1)->Identifier_0;
        let full = class + seq!['_'] + m;
        if tv(t, pos + 2) is LParen {
            match p_params(t, pos + 3) {
                Some((params, p1r)) => {
                    let p1 = bump(t, pos, p1r);
                    match p_body(t, p1) {
                        Some((body, p2, regs)) => Some(
                            (
                                StmtV::Function(
                                    full,
                                    seq![seq!['t', 'h', 'i', 's']] + params,
                                    body,
                                ),
                                p2,
                                seq![full] + regs,
                            ),
                        ),
                        None => None,
                    }
                },
                None => None,
            }
        } else {
            None
        }
    } else {
        None
    }
}

/// The model of an expression: the comparison level.
pub open spec fn p_expr(t: Seq<TokV>, pos: int) -> Option<(ExprV, int)>
    decreases rem(t, pos), 4int,
{
    p_comparison(t, pos)
}

/// Left-associative `<` chains over additive expressions.
pub open spec fn p_comparison(t: Seq<TokV>, pos: int) -> Option<(ExprV, int)>
    decreases rem(t, pos), 3int,
{
    match p_term(t, pos) {
        Some((e, p1)) => p_cmp_more(t, bump(t, pos, p1), e),
        None => None,
    }
}

pub open spec fn p_cmp_more(t: Seq<TokV>, pos: int, acc: ExprV) -> Option<(ExprV, int)>
    decreases rem(t, pos), 2int,
{
    if tv(t, pos) is LessThan {
        match p_term(t, pos + 1) {
            Some((r, p1)) => p_cmp_more(
                t,
                bump(t, pos, p1),
                ExprV::Binary(Box::new(acc), Op::LessThan, Box::new(r)),
            ),
            None => None,
        }
    } else {
        Some((acc, pos))
    }
}

/// Left-associative `+`/`-` chains over multiplicative expressions.
pub open spec fn p_term(t: Seq<TokV>, pos: int) -> Option<(ExprV, int)>
    decreases rem(t, pos), 2int,
{
    match p_factor(t, pos) {
        Some((e, p1)) => p_term_more(t, bump(t, pos, p1), e),
        None => None,
    }
}

pub open spec fn p_term_more(t: Seq<TokV>, pos: int, acc: ExprV) -> Option<(ExprV, int)>
    decreases rem(t, pos), 1int,
{
    if tv(t, pos) is Plus {
        match p_factor(t, pos + 1) {
            Some((r, p1)) => p_term_more(
                t,
                bump(t, pos, p1),
                ExprV::Binary(Box::new(acc), Op::Add, Box::new(r)),
            ),
            None => None,
        }
    } else if tv(t, pos) is Minus {
        match p_factor(t, pos + 1) {
            Some((r, p1)) => p_term_more(
                t,
                bump(t, pos, p1),
                ExprV::Binary(Box::new(acc), Op::Sub, Box::new(r)),
            ),
            None => None,
        }
    } else {
        Some((acc, pos))
    }
}

/// Left-associative `*`/`/` chains over primaries.
pub open spec fn p_factor(t: Seq<TokV>, pos: int) -> Option<(ExprV, int)>
    decreases rem(t, pos), 1int,
{
    match p_primary(t, pos) {
        Some((e, p1)) => p_fact_more(t, bump(t, pos, p1), e),
        None => None,
    }
}

pub open spec fn p_fact_more(t: Seq<TokV>, pos: int, acc: ExprV) -> Option<(ExprV, int)>
    decreases rem(t, pos), 0int,
{
    if tv(t, pos) is Star {
        match p_primary(t, pos + 1) {
            Some((r, p1)) => p_fact_more(
                t,
                bump(t, pos, p1),
                ExprV::Binary(Box::new(acc), Op::Mul, Box::new(r)),
            ),
            None => None,
        }
    } else if tv(t, pos) is Slash {
        match p_primary(t, pos + 1) {
            Some((r, p1)) => p_fact_more(
                t,
                bump(t, pos, p1),
                ExprV::Binary(Box::new(acc), Op::Div, Box::new(r)),
            ),
            None => None,
        }
    } else {
        Some((acc, pos))
    }
}

/// Primary productions: literals, `new` forms, and an identifier followed
/// by a call, an index, a member access or nothing.
pub open spec fn p_primary(t: Seq<TokV>, pos: int) -> Option<(ExprV, int)>
    decreases rem(t, pos), 0int,
{
    match tv(t, pos) {
        TokV::Number(v) => Some((ExprV::Integer(wrap_i32(v as int)), pos + 1)),
        TokV::StringLit(s) => Some((ExprV::StringLiteral(s), pos + 1)),
        TokV::New => p_new_tail(t, pos + 1),
        TokV::Identifier(name) => p_ident_tail(t, pos + 1, name),
        _ => None,
    }
}

/// What follows `new`: an array allocation over a type keyword, or an
/// instantiation over a class name.
pub open spec fn p_new_tail(t: Seq<TokV>, pos: int) -> Option<(ExprV, int)>
    decreases rem(t, pos), 0int,
{
    match tv(t, pos) {
        TokV::Int | TokV::StrType => {
            if tv(t, pos + 1) is LBracket {
                match p_expr(t, pos + 2) {
                    Some((sz, p1r)) => {
                        let p1 = bump(t, pos, p1r);
                        if tv(t, p1) is RBracket {
                            Some((ExprV::NewArray(Box::new(sz)), p1 + 1))
                        } else {
                            None
                        }
                    },
                    None => None,
                }
            } else {
                None
            }
        },
        TokV::Identifier(cn) => {
            if (tv(t, pos + 1) is LParen) && (tv(t, pos + 2) is RParen) {
                Some((ExprV::NewInstance(cn), pos + 3))
            } else {
                None
            }
        },
        _ => None,
    }
}

/// What follows an identifier: `(args)` makes a call, `[index]` an array
/// read, `.member` a field read or, with `(args)`, a method call; else the
/// identifier alone is a variable reference.
pub open spec fn p_ident_tail(t: Seq<TokV>, pos: int, name: Seq<char>) -> Option<(ExprV, int)>
    decreases rem(t, pos), 0int,
{
    if tv(t, pos) is LParen {
        if tv(t, pos + 1) is RParen {
            Some((ExprV::Call(name, Seq::empty()), pos + 2))
        } else {
            match p_args(t, pos + 1) {
                Some((args, p1)) => {
                    if tv(t, p1) is RParen {
                        Some((ExprV::Call(name, args), p1 + 1))
                    } else {
                        None
                    }
                },
                None => None,
            }
        }
    } else if tv(t, pos) is LBracket {
        match p_expr(t, pos + 1) {
            Some((ix, p1r)) => {
                let p1 = bump(t, pos, p1r);
                if tv(t, p1) is RBracket {
                    Some((ExprV::ArrayAccess(name, Box::new(ix)), p1 + 1))
                } else {
                    None
                }
            },
            None => None,
        }
    } else if tv(t, pos) is Dot {
        if tv(t, pos + 1) is Identifier {
            let member = tv(t, pos + 1)->Identifier_0;
            if tv(t, pos + 2) is LParen {
                if tv(t, pos + 3) is RParen {
                    Some(
                        (
                            ExprV::MethodCall(
                                Box::new(ExprV::Variable(name)),
                                member,
                                Seq::empty(),
                            ),
                            pos + 4,
                        ),
                    )
                } else {
                    match p_args(t, pos + 3) {
                        Some((args, p1)) => {
                            if tv(t, p1) is RParen {
                                Some(
                                    (
                                        ExprV::MethodCall(
                                            Box::new(ExprV::Variable(name)),
                                            member,
                                            args,
                                        ),
                                        p1 + 1,
                                    ),
                                )
                            } else {
                                None
                            }
                        },
                        None => None,
                    }
                }
            } else {
                Some((ExprV::GetField(Box::new(ExprV::Variable(name)), member), pos + 2))
            }
        } else {
            None
        }
    } else {
        Some((ExprV::Variable(name), pos))
    }
}

/// A non-empty comma-separated argument list; ends at the token after the
/// last argument (the closing `)` is the caller's to check).
pub open spec fn p_args(t: Seq<TokV>, pos: int) -> Option<(Seq<ExprV>, int)>
    decreases rem(t, pos), 5int,
{
    match p_expr(t, pos) {
        Some((e, p1r)) => {
            let p1 = bump(t, pos, p1r);
            if tv(t, p1) is Comma {
                match p_args(t, p1 + 1) {
                    Some((rest, p2)) => Some((seq![e] + rest, p2)),
                    None => None,
                }
            } else {
                Some((seq![e], p1))
            }
        },
        None => None,
    }
}


/// Appending registrations composes.
pub proof fn lemma_syms_plus_concat(sy: SymV, a: Seq<Seq<char>>, b: Seq<Seq<char>>)
    ensures
        syms_plus(syms_plus(sy, a), b) == syms_plus(sy, a + b),
{
    assert(regs_pairs(a + b) =~= regs_pairs(a) + regs_pairs(b));
    assert((sy.functions + regs_pairs(a)) + regs_pairs(b) =~= sy.functions + (regs_pairs(a)
        + regs_pairs(b)));
    assert(syms_plus(syms_plus(sy, a), b) =~= syms_plus(sy, a + b));
}

/// Registering nothing changes nothing.
pub proof fn lemma_syms_plus_empty(sy: SymV)
    ensures
        syms_plus(sy, Seq::<Seq<char>>::empty()) == sy,
{
    assert(regs_pairs(Seq::<Seq<char>>::empty()) =~= Seq::<(Seq<char>, u32)>::empty());
    assert(sy.functions + regs_pairs(Seq::<Seq<char>>::empty()) =~= sy.functions);
    assert(syms_plus(sy, Seq::<Seq<char>>::empty()) =~= sy);
}

/// One registration appends one placeholder entry.
pub proof fn lemma_syms_plus_one(sy: SymV, n: Seq<char>)
    ensures
        syms_plus(sy, seq![n]).functions == sy.functions.push((n, 0u32)),
        syms_plus(sy, seq![n]) == (SymV { functions: sy.functions.push((n, 0u32)), ..sy }),
{
    assert(regs_pairs(seq![n]) =~= seq![(n, 0u32)]);
    assert(sy.functions + regs_pairs(seq![n]) =~= sy.functions.push((n, 0u32)));
    assert(syms_plus(sy, seq![n]) =~= (SymV { functions: sy.functions.push((n, 0u32)), ..sy }));
}

/// The parser: the token stream and a cursor into it.
pub struct Parser {
    pub tokens: Vec<Token>,
    pub pos: usize,
}

impl Parser {
    /// The token views this parser walks over.
    pub open spec fn toks(&self) -> Seq<TokV> {
        toks_view(self.tokens@)
    }

    /// Validity: a nonempty stream whose last token is the end marker, with
    /// the cursor inside it. `Parser::new` establishes it for any stream the
    /// lexer produces, and every step preserves it.
    pub open spec fn wf(&self) -> bool {
        &&& self.toks().len() > 0
        &&& self.toks().last() is EOF
        &&& (self.pos as int) < self.toks().len()
    }

    /// A parser at the start of `tokens`.
    pub fn new(tokens: Vec<Token>) -> (r: Parser)
        ensures
            r.tokens@ == tokens@,
            r.pos == 0,
    {
        Parser { tokens, pos: 0 }
    }

    /// A non-end token is never last, so stepping over it stays inside.
    proof fn lemma_step_in(&self)
        requires
            self.wf(),
            !(tv(self.toks(), self.pos as int) is EOF),
        ensures
            self.pos + 1 < self.toks().len(),
    {
        assert(self.toks().len() == self.tokens@.len());
        if self.pos as int == self.toks().len() - 1 {
            assert(tv(self.toks(), self.pos as int) == self.toks().last());
        }
    }

    /// The variant of the token `off` places ahead, the end marker standing
    /// in past the end: the parser's fixed-depth lookahead.
    fn kind_at(&self, off: usize) -> (k: TokKind)
        requires
            self.wf(),
            off <= 4,
        ensures
            k == kind_of(tv(self.toks(), self.pos + off)),
    {
        let rest = self.tokens.len() - self.pos;
        if off >= rest {
            TokKind::EOF
        } else {
            match &self.tokens[self.pos + off] {
                Token::Var => TokKind::Var,
                Token::Mut => TokKind::Mut,
                Token::Func => TokKind::Func,
                Token::Class => TokKind::Class,
                Token::Return => TokKind::Return,
                Token::Print => TokKind::Print,
                Token::Int => TokKind::Int,
                Token::Void => TokKind::Void,
                Token::StrType => TokKind::StrType,
                Token::New => TokKind::New,
                Token::If => TokKind::If,
                Token::Else => TokKind::Else,
                Token::While => TokKind::While,
                Token::Identifier(_) => TokKind::Identifier,
                Token::Number(_) => TokKind::Number,
                Token::StringLit(_) => TokKind::StringLit,
                Token::Equals => TokKind::Equals,
                Token::Plus => TokKind::Plus,
                Token::Minus => TokKind::Minus,
                Token::Star => TokKind::Star,
                Token::Slash => TokKind::Slash,
                Token::Comma => TokKind::Comma,
                Token::Dot => TokKind::Dot,
                Token::LessThan => TokKind::LessThan,
                Token::LParen => TokKind::LParen,
                Token::RParen => TokKind::RParen,
                Token::LBrace => TokKind::LBrace,
                Token::RBrace => TokKind::RBrace,
                Token::LBracket => TokKind::LBracket,
                Token::RBracket => TokKind::RBracket,
                Token::Newline => TokKind::Newline,
                Token::EOF => TokKind::EOF,
            }
        }
    }

    /// Whether the cursor stands on the end marker.
    fn is_at_end(&self) -> (b: bool)
        requires
            self.wf(),
        ensures
            b == (tv(self.toks(), self.pos as int) is EOF),
    {
        matches!(self.kind_at(0), TokKind::EOF)
    }

    /// Steps over the current token; a no-op at the end marker.
    fn advance(&mut self)
        requires
            old(self).wf(),
        ensures
            final(self).tokens@ == old(self).tokens@,
            final(self).wf(),
            tv(old(self).toks(), old(self).pos as int) is EOF ==> final(self).pos == old(
                self,
            ).pos,
            !(tv(old(self).toks(), old(self).pos as int) is EOF) ==> final(self).pos == old(
                self,
            ).pos + 1,
    {
        if !self.is_at_end() {
            proof {
                self.lemma_step_in();
            }
            let n = self.tokens.len();
            assert(self.pos + 1 <= n);
            self.pos = self.pos + 1;
        }
    }

    /// Consumes an identifier token and hands its name out.
    fn take_ident(&mut self) -> (r: Option<String>)
        requires
            old(self).wf(),
        ensures
            final(self).tokens@ == old(self).tokens@,
            final(self).wf(),
            match r {
                Some(s) => (tv(old(self).toks(), old(self).pos as int) is Identifier) && s@ == tv(
                    old(self).toks(),
                    old(self).pos as int,
                )->Identifier_0 && final(self).pos == old(self).pos + 1,
                None => !(tv(old(self).toks(), old(self).pos as int) is Identifier) && *final(self)
                    == *old(self),
            },
    {
        if matches!(self.kind_at(0), TokKind::Identifier) {
            match &self.tokens[self.pos] {
                Token::Identifier(s) => {
                    let c = s.clone();
                    proof {
                        self.lemma_step_in();
                    }
                    let n = self.tokens.len();
                    assert(self.pos + 1 <= n);
                    self.pos = self.pos + 1;
                    Some(c)
                },
                _ => None,
            }
        } else {
            None
        }
    }

    /// Consumes an integer token and hands its value out.
    fn take_number(&mut self) -> (r: Option<i64>)
        requires
            old(self).wf(),
        ensures
            final(self).tokens@ == old(self).tokens@,
            final(self).wf(),
            match r {
                Some(v) => (tv(old(self).toks(), old(self).pos as int) is Number) && v == tv(
                    old(self).toks(),
                    old(self).pos as int,
                )->Number_0 && final(self).pos == old(self).pos + 1,
                None => !(tv(old(self).toks(), old(self).pos as int) is Number) && *final(self)
                    == *old(self),
            },
    {
        if matches!(self.kind_at(0), TokKind::Number) {
            match &self.tokens[self.pos] {
                Token::Number(v) => {
                    let c = *v;
                    proof {
                        self.lemma_step_in();
                    }
                    let n = self.tokens.len();
                    assert(self.pos + 1 <= n);
                    self.pos = self.pos + 1;
                    Some(c)
                },
                _ => None,
            }
        } else {
            None
        }
    }

    /// Consumes a string-literal token and hands its text out.
    fn take_strlit(&mut self) -> (r: Option<String>)
        requires
            old(self).wf(),
        ensures
            final(self).tokens@ == old(self).tokens@,
            final(self).wf(),
            match r {
                Some(s) => (tv(old(self).toks(), old(self).pos as int) is StringLit) && s@ == tv(
                    old(self).toks(),
                    old(self).pos as int,
                )->StringLit_0 && final(self).pos == old(self).pos + 1,
                None => !(tv(old(self).toks(), old(self).pos as int) is StringLit) && *final(self)
                    == *old(self),
            },
    {
        if matches!(self.kind_at(0), TokKind::StringLit) {
            match &self.tokens[self.pos] {
                Token::StringLit(s) => {
                    let c = s.clone();
                    proof {
                        self.lemma_step_in();
                    }
                    let n = self.tokens.len();
                    assert(self.pos + 1 <= n);
                    self.pos = self.pos + 1;
                    Some(c)
                },
                _ => None,
            }
        } else {
            None
        }
    }

    /// The 32-bit two's-complement image of a 64-bit literal value.
    fn i32_of_i64_wrap(v: i64) -> (r: i32)
        ensures
            r == wrap_i32(v as int),
    {
        let m: i64 = if v >= 0 {
            v % 0x1_0000_0000
        } else {
            let d: i64 = -(v + 1);
            let md: i64 = d % 0x1_0000_0000;
            proof {
                lemma_neg_mod_units(d as int);
            }
            0x1_0000_0000 - 1 - md
        };
        if m >= 0x8000_0000 {
            (m - 0x1_0000_0000) as i32
        } else {
            m as i32
        }
    }

    /// Primary productions.
    #[verifier::loop_isolation(false)]
    #[verifier::spinoff_prover]
    fn parse_primary(&mut self) -> (r: Result<Expr, ParseError>)
        requires
            old(self).wf(),
        ensures
            final(self).tokens@ == old(self).tokens@,
            final(self).wf(),
            r is Ok ==> final(self).pos > old(self).pos,
            match p_primary(old(self).toks(), old(self).pos as int) {
                Some(v) => r is Ok && r->Ok_0@ == v.0 && final(self).pos as int == v.1,
                None => r is Err,
            },
        decreases rem(self.toks(), self.pos as int), 0int,
    {
        match self.kind_at(0) {
            TokKind::Number => {
                match self.take_number() {
                    Some(v) => {
                        let iv = Self::i32_of_i64_wrap(v);
                        Ok(Expr::Integer(iv))
                    },
                    None => Err(ParseError::Syntax),
                }
            },
            TokKind::StringLit => {
                match self.take_strlit() {
                    Some(s) => Ok(Expr::StringLiteral(s)),
                    None => Err(ParseError::Syntax),
                }
            },
            TokKind::New => {
                self.advance();
                self.parse_new_tail()
            },
            TokKind::Identifier => {
                match self.take_ident() {
                    Some(name) => self.parse_ident_tail(name),
                    None => Err(ParseError::Syntax),
                }
            },
            _ => Err(ParseError::Syntax),
        }
    }

    /// What follows `new`.
    #[verifier::loop_isolation(false)]
    fn parse_new_tail(&mut self) -> (r: Result<Expr, ParseError>)
        requires
            old(self).wf(),
        ensures
            final(self).tokens@ == old(self).tokens@,
            final(self).wf(),
            r is Ok ==> final(self).pos >= old(self).pos,
            match p_new_tail(old(self).toks(), old(self).pos as int) {
                Some(v) => r is Ok && r->Ok_0@ == v.0 && final(self).pos as int == v.1,
                None => r is Err,
            },
        decreases rem(self.toks(), self.pos as int), 0int,
    {
        let ghost t = self.toks();
        let ghost pos0 = self.pos as int;
        match self.kind_at(0) {
            TokKind::Int | TokKind::StrType => {
                self.advance();
                if !matches!(self.kind_at(0), TokKind::LBracket) {
                    return Err(ParseError::Syntax);
                }
                self.advance();
                let sz = match self.parse_expr() {
                    Ok(e) => e,
                    Err(er) => {
                        return Err(er);
                    },
                };
                proof {
                    assert(bump(t, pos0, self.pos as int) == self.pos as int);
                }
                if !matches!(self.kind_at(0), TokKind::RBracket) {
                    return Err(ParseError::Syntax);
                }
                self.advance();
                Ok(Expr::NewArray(Box::new(sz)))
            },
            TokKind::Identifier => {
                match self.take_ident() {
                    Some(cn) => {
                        if !matches!(self.kind_at(0), TokKind::LParen) {
                            return Err(ParseError::Syntax);
                        }
                        self.advance();
                        if !matches!(self.kind_at(0), TokKind::RParen) {
                            return Err(ParseError::Syntax);
                        }
                        self.advance();
                        Ok(Expr::NewInstance(cn))
                    },
                    None => Err(ParseError::Syntax),
                }
            },
            _ => Err(ParseError::Syntax),
        }
    }

    /// What follows an identifier in a primary expression.
    #[verifier::loop_isolation(false)]
    #[verifier::rlimit(50)]
    #[verifier::spinoff_prover]
    fn parse_ident_tail(&mut self, name: String) -> (r: Result<Expr, ParseError>)
        requires
            old(self).wf(),
        ensures
            final(self).tokens@ == old(self).tokens@,
            final(self).wf(),
            r is Ok ==> final(self).pos >= old(self).pos,
            match p_ident_tail(old(self).toks(), old(self).pos as int, name@) {
                Some(v) => r is Ok && r->Ok_0@ == v.0 && final(self).pos as int == v.1,
                None => r is Err,
            },
        decreases rem(self.toks(), self.pos as int), 0int,
    {
        let ghost t = self.toks();
        let ghost pos0 = self.pos as int;
        if matches!(self.kind_at(0), TokKind::LParen) {
            self.advance();
            if matches!(self.kind_at(0), TokKind::RParen) {
                self.advance();
                let args: Vec<Expr> = Vec::new();
                assert(exprs_view(args@) =~= Seq::<ExprV>::empty());
                return Ok(Expr::Call(name, args))
            } else {
                let args = match self.parse_args() {
                    Ok(a) => a,
                    Err(er) => {
                        return Err(er);
                    },
                };
                if !matches!(self.kind_at(0), TokKind::RParen) {
                    return Err(ParseError::Syntax);
                }
                self.advance();
                return Ok(Expr::Call(name, args))
            }
        } else if matches!(self.kind_at(0), TokKind::LBracket) {
            self.advance();
            let ix = match self.parse_expr() {
                Ok(e) => e,
                Err(er) => {
                    return Err(er);
                },
            };
            proof {
                assert(bump(t, pos0, self.pos as int) == self.pos as int);
            }
            if !matches!(self.kind_at(0), TokKind::RBracket) {
                return Err(ParseError::Syntax);
            }
            self.advance();
            return Ok(Expr::ArrayAccess(name, Box::new(ix)))
        } else if matches!(self.kind_at(0), TokKind::Dot) {
            self.advance();
            match self.take_ident() {
                Some(member) => {
                    if matches!(self.kind_at(0), TokKind::LParen) {
                        self.advance();
                        if matches!(self.kind_at(0), TokKind::RParen) {
                            self.advance();
                            let args: Vec<Expr> = Vec::new();
                            assert(exprs_view(args@) =~= Seq::<ExprV>::empty());
                            let recv = Expr::Variable(name);
                            proof {
                                assert(recv@ == ExprV::Variable(recv->Variable_0@));
                            }
                            return Ok(Expr::MethodCall(Box::new(recv), member, args))
                        } else {
                            let args = match self.parse_args() {
                                Ok(a) => a,
                                Err(er) => {
                                    return Err(er);
                                },
                            };
                            if !matches!(self.kind_at(0), TokKind::RParen) {
                                return Err(ParseError::Syntax);
                            }
                            self.advance();
                            let recv = Expr::Variable(name);
                            proof {
                                assert(recv@ == ExprV::Variable(recv->Variable_0@));
                            }
                            return Ok(Expr::MethodCall(Box::new(recv), member, args))
                        }
                    } else {
                        proof {
                            assert(tv(t, pos0) is Dot);
                            assert(tv(t, pos0 + 1) is Identifier);
                            assert(member@ == tv(t, pos0 + 1)->Identifier_0);
                            assert(!(tv(t, pos0 + 2) is LParen));
                            assert(self.pos as int == pos0 + 2);
                        }
                        let recv = Expr::Variable(name);
                        proof {
                            assert(recv@ == ExprV::Variable(recv->Variable_0@));
                        }
                        return Ok(Expr::GetField(Box::new(recv), member))
                    }
                },
                None => Err(ParseError::Syntax),
            }
        } else {
            return Ok(Expr::Variable(name))
        }
    }

    /// A non-empty comma-separated argument list.
    #[verifier::loop_isolation(false)]
    #[verifier::rlimit(30)]
    #[verifier::spinoff_prover]
    fn parse_args(&mut self) -> (r: Result<Vec<Expr>, ParseError>)
        requires
            old(self).wf(),
        ensures
            final(self).tokens@ == old(self).tokens@,
            final(self).wf(),
            r is Ok ==> final(self).pos > old(self).pos,
            match p_args(old(self).toks(), old(self).pos as int) {
                Some(v) => r is Ok && exprs_view(r->Ok_0@) == v.0 && final(self).pos as int
                    == v.1,
                None => r is Err,
            },
        decreases rem(self.toks(), self.pos as int), 5int,
    {
        let ghost t = self.toks();
        let ghost pos0 = self.pos as int;
        let mut args: Vec<Expr> = Vec::new();
        let mut closed = false;
        assert(exprs_view(args@) =~= Seq::<ExprV>::empty());
        while !closed
            invariant
                self.tokens@ == old(self).tokens@,
                self.wf(),
                self.pos >= old(self).pos,
                closed ==> self.pos > old(self).pos && p_args(t, pos0) == Some(
                    (exprs_view(args@), self.pos as int),
                ),
                !closed ==> match p_args(t, self.pos as int) {
                    Some(v) => p_args(t, pos0) == Some(((exprs_view(args@) + v.0), v.1)),
                    None => p_args(t, pos0) is None,
                },
            decreases rem(t, self.pos as int), (if closed { 0int } else { 1int }),
        {
            let ghost cur = self.pos as int;
            let ghost done = exprs_view(args@);
            let e = match self.parse_expr() {
                Ok(e) => e,
                Err(er) => {
                    return Err(er);
                },
            };
            proof {
                assert(bump(t, cur, self.pos as int) == self.pos as int);
            }
            let ghost prev = args@;
            args.push(e);
            proof {
                assert(args@.drop_last() =~= prev);
                assert(args@.last() == e);
                assert(exprs_view(args@) == exprs_view(prev).push(e@));
            }
            if matches!(self.kind_at(0), TokKind::Comma) {
                self.advance();
                proof {
                    match p_args(t, self.pos as int) {
                        Some(v) => {
                            assert(done + (seq![e@] + v.0) =~= exprs_view(args@) + v.0);
                        },
                        None => {},
                    }
                }
            } else {
                closed = true;
                assert(done + seq![e@] =~= exprs_view(args@));
            }
        }
        Ok(args)
    }

    /// The expression entry point: the comparison level.
    fn parse_expr(&mut self) -> (r: Result<Expr, ParseError>)
        requires
            old(self).wf(),
        ensures
            final(self).tokens@ == old(self).tokens@,
            final(self).wf(),
            r is Ok ==> final(self).pos > old(self).pos,
            match p_expr(old(self).toks(), old(self).pos as int) {
                Some(v) => r is Ok && r->Ok_0@ == v.0 && final(self).pos as int == v.1,
                None => r is Err,
            },
        decreases rem(self.toks(), self.pos as int), 4int,
    {
        self.parse_comparison()
    }

    /// Left-associative `<` chains.
    #[verifier::loop_isolation(false)]
    #[verifier::rlimit(50)]
    #[verifier::spinoff_prover]
    fn parse_comparison(&mut self) -> (r: Result<Expr, ParseError>)
        requires
            old(self).wf(),
        ensures
            final(self).tokens@ == old(self).tokens@,
            final(self).wf(),
            r is Ok ==> final(self).pos > old(self).pos,
            match p_comparison(old(self).toks(), old(self).pos as int) {
                Some(v) => r is Ok && r->Ok_0@ == v.0 && final(self).pos as int == v.1,
                None => r is Err,
            },
        decreases rem(self.toks(), self.pos as int), 3int,
    {
        let ghost t = self.toks();
        let ghost pos0 = self.pos as int;
        let mut e = match self.parse_term() {
            Ok(e) => e,
            Err(er) => {
                return Err(er);
            },
        };
        proof {
            assert(bump(t, pos0, self.pos as int) == self.pos as int);
        }
        while matches!(self.kind_at(0), TokKind::LessThan)
            invariant
                self.tokens@ == old(self).tokens@,
                self.wf(),
                self.pos > old(self).pos,
                p_comparison(t, pos0) == p_cmp_more(t, self.pos as int, e@),
            decreases rem(t, self.pos as int),
        {
            let ghost cur = self.pos as int;
            self.advance();
            let rhs = match self.parse_term() {
                Ok(x) => x,
                Err(er) => {
                    return Err(er);
                },
            };
            proof {
                assert(bump(t, cur, self.pos as int) == self.pos as int);
            }
            e = Expr::Binary(Box::new(e), Op::LessThan, Box::new(rhs));
        }
        Ok(e)
    }

    /// Left-associative `+`/`-` chains.
    #[verifier::loop_isolation(false)]
    #[verifier::rlimit(100)]
    #[verifier::spinoff_prover]
    fn parse_term(&mut self) -> (r: Result<Expr, ParseError>)
        requires
            old(self).wf(),
        ensures
            final(self).tokens@ == old(self).tokens@,
            final(self).wf(),
            r is Ok ==> final(self).pos > old(self).pos,
            match p_term(old(self).toks(), old(self).pos as int) {
                Some(v) => r is Ok && r->Ok_0@ == v.0 && final(self).pos as int == v.1,
                None => r is Err,
            },
        decreases rem(self.toks(), self.pos as int), 2int,
    {
        let ghost t = self.toks();
        let ghost pos0 = self.pos as int;
        let mut e = match self.parse_factor() {
            Ok(e) => e,
            Err(er) => {
                return Err(er);
            },
        };
        proof {
            assert(bump(t, pos0, self.pos as int) == self.pos as int);
        }
        while matches!(self.kind_at(0), TokKind::Plus | TokKind::Minus)
            invariant
                self.tokens@ == old(self).tokens@,
                self.wf(),
                self.pos > old(self).pos,
                p_term(t, pos0) == p_term_more(t, self.pos as int, e@),
            decreases rem(t, self.pos as int),
        {
            let ghost cur = self.pos as int;
            let plus = matches!(self.kind_at(0), TokKind::Plus);
            self.advance();
            let rhs = match self.parse_factor() {
                Ok(x) => x,
                Err(er) => {
                    return Err(er);
                },
            };
            proof {
                assert(bump(t, cur, self.pos as int) == self.pos as int);
            }
            if plus {
                e = Expr::Binary(Box::new(e), Op::Add, Box::new(rhs));
            } else {
                e = Expr::Binary(Box::new(e), Op::Sub, Box::new(rhs));
            }
        }
        Ok(e)
    }

    /// Left-associative `*`/`/` chains.
    #[verifier::loop_isolation(false)]
    #[verifier::rlimit(50)]
    #[verifier::spinoff_prover]
    fn parse_factor(&mut self) -> (r: Result<Expr, ParseError>)
        requires
            old(self).wf(),
        ensures
            final(self).tokens@ == old(self).tokens@,
            final(self).wf(),
            r is Ok ==> final(self).pos > old(self).pos,
            match p_factor(old(self).toks(), old(self).pos as int) {
                Some(v) => r is Ok && r->Ok_0@ == v.0 && final(self).pos as int == v.1,
                None => r is Err,
            },
        decreases rem(self.toks(), self.pos as int), 1int,
    {
        let ghost t = self.toks();
        let ghost pos0 = self.pos as int;
        let mut e = match self.parse_primary() {
            Ok(e) => e,
            Err(er) => {
                return Err(er);
            },
        };
        proof {
            assert(bump(t, pos0, self.pos as int) == self.pos as int);
        }
        while matches!(self.kind_at(0), TokKind::Star | TokKind::Slash)
            invariant
                self.tokens@ == old(self).tokens@,
                self.wf(),
                self.pos > old(self).pos,
                p_factor(t, pos0) == p_fact_more(t, self.pos as int, e@),
            decreases rem(t, self.pos as int),
        {
            let ghost cur = self.pos as int;
            let star = matches!(self.kind_at(0), TokKind::Star);
            self.advance();
            let rhs = match self.parse_primary() {
                Ok(x) => x,
                Err(er) => {
                    return Err(er);
                },
            };
            proof {
                assert(bump(t, cur, self.pos as int) == self.pos as int);
            }
            if star {
                e = Expr::Binary(Box::new(e), Op::Mul, Box::new(rhs));
            } else {
                e = Expr::Binary(Box::new(e), Op::Div, Box::new(rhs));
            }
        }
        Ok(e)
    }

    /// One statement, dispatched on the leading token.
    #[verifier::loop_isolation(false)]
    #[verifier::rlimit(100)]
    #[verifier::spinoff_prover]
    fn parse_statement(&mut self, symbols: &mut SymbolTable) -> (r: Result<Stmt, ParseError>)
        requires
            old(self).wf(),
        ensures
            final(self).tokens@ == old(self).tokens@,
            final(self).wf(),
            r is Ok ==> final(self).pos > old(self).pos,
            match p_stmt(old(self).toks(), old(self).pos as int) {
                Some(v) => r is Ok && r->Ok_0@ == v.0 && final(self).pos as int == v.1 && final(symbols)@ == syms_plus(old(symbols)@, v.2),
                None => r is Err,
            },
        decreases rem(self.toks(), self.pos as int), 10int,
    {
        let ghost t = self.toks();
        let ghost pos0 = self.pos as int;
        proof {
            lemma_syms_plus_empty(symbols@);
        }
        match self.kind_at(0) {
            TokKind::Var => self.parse_declaration(),
            TokKind::Int | TokKind::Void | TokKind::StrType => {
                if matches!(self.kind_at(1), TokKind::Identifier) && matches!(
                    self.kind_at(2),
                    TokKind::LParen,
                ) {
                    self.parse_function(symbols)
                } else {
                    self.parse_declaration()
                }
            },
            TokKind::If => self.parse_if(symbols),
            TokKind::While => self.parse_while(symbols),
            TokKind::LBrace => self.parse_block(symbols),
            TokKind::Class => self.parse_class_decl(symbols),
            TokKind::Return => self.parse_return(),
            TokKind::Print => self.parse_print(),
            TokKind::Identifier => {
                let e = match self.parse_expr() {
                    Ok(e) => e,
                    Err(er) => {
                        return Err(er);
                    },
                };
                proof {
                    assert(bump(t, pos0, self.pos as int) == self.pos as int);
                }
                if matches!(self.kind_at(0), TokKind::Equals) {
                    self.advance();
                    let v = match self.parse_expr() {
                        Ok(x) => x,
                        Err(er) => {
                            return Err(er);
                        },
                    };
                    match e {
                        Expr::Variable(n) => Ok(Stmt::Assign(n, v)),
                        Expr::ArrayAccess(n, ix) => Ok(Stmt::ArraySet(n, *ix, v)),
                        Expr::GetField(obj, f) => Ok(Stmt::FieldSet(obj, f, v)),
                        _ => Err(ParseError::Syntax),
                    }
                } else {
                    Ok(Stmt::Expression(e))
                }
            },
            _ => {
                match self.parse_expr() {
                    Ok(e) => Ok(Stmt::Expression(e)),
                    Err(er) => Err(er),
                }
            },
        }
    }

    /// `var` or typed variable declaration.
    #[verifier::loop_isolation(false)]
    fn parse_declaration(&mut self) -> (r: Result<Stmt, ParseError>)
        requires
            old(self).wf(),
            !(tv(old(self).toks(), old(self).pos as int) is EOF),
        ensures
            final(self).tokens@ == old(self).tokens@,
            final(self).wf(),
            r is Ok ==> final(self).pos > old(self).pos,
            match p_decl(old(self).toks(), old(self).pos as int) {
                Some(v) => r is Ok && r->Ok_0@ == v.0 && final(self).pos as int == v.1,
                None => r is Err,
            },
        decreases rem(self.toks(), self.pos as int), 5int,
    {
        self.advance();
        match self.take_ident() {
            Some(name) => {
                if !matches!(self.kind_at(0), TokKind::Equals) {
                    return Err(ParseError::Syntax);
                }
                self.advance();
                match self.parse_expr() {
                    Ok(init) => Ok(Stmt::VarDecl(name, init)),
                    Err(er) => Err(er),
                }
            },
            None => Err(ParseError::Syntax),
        }
    }

    /// `return` with its value.
    #[verifier::loop_isolation(false)]
    fn parse_return(&mut self) -> (r: Result<Stmt, ParseError>)
        requires
            old(self).wf(),
            !(tv(old(self).toks(), old(self).pos as int) is EOF),
        ensures
            final(self).tokens@ == old(self).tokens@,
            final(self).wf(),
            r is Ok ==> final(self).pos > old(self).pos,
            match p_return(old(self).toks(), old(self).pos as int) {
                Some(v) => r is Ok && r->Ok_0@ == v.0 && final(self).pos as int == v.1,
                None => r is Err,
            },
        decreases rem(self.toks(), self.pos as int), 5int,
    {
        self.advance();
        match self.parse_expr() {
            Ok(e) => Ok(Stmt::Return(e)),
            Err(er) => Err(er),
        }
    }

    /// `print` with its value.
    #[verifier::loop_isolation(false)]
    fn parse_print(&mut self) -> (r: Result<Stmt, ParseError>)
        requires
            old(self).wf(),
            !(tv(old(self).toks(), old(self).pos as int) is EOF),
        ensures
            final(self).tokens@ == old(self).tokens@,
            final(self).wf(),
            r is Ok ==> final(self).pos > old(self).pos,
            match p_print(old(self).toks(), old(self).pos as int) {
                Some(v) => r is Ok && r->Ok_0@ == v.0 && final(self).pos as int == v.1,
                None => r is Err,
            },
        decreases rem(self.toks(), self.pos as int), 5int,
    {
        self.advance();
        match self.parse_expr() {
            Ok(e) => Ok(Stmt::Print(e)),
            Err(er) => Err(er),
        }
    }

    /// `if` with a single then statement and an optional `else`.
    #[verifier::loop_isolation(false)]
    #[verifier::rlimit(100)]
    #[verifier::spinoff_prover]
    fn parse_if(&mut self, symbols: &mut SymbolTable) -> (r: Result<Stmt, ParseError>)
        requires
            old(self).wf(),
            !(tv(old(self).toks(), old(self).pos as int) is EOF),
        ensures
            final(self).tokens@ == old(self).tokens@,
            final(self).wf(),
            r is Ok ==> final(self).pos > old(self).pos,
            match p_if(old(self).toks(), old(self).pos as int) {
                Some(v) => r is Ok && r->Ok_0@ == v.0 && final(self).pos as int == v.1 && final(symbols)@ == syms_plus(old(symbols)@, v.2),
                None => r is Err,
            },
        decreases rem(self.toks(), self.pos as int), 5int,
    {
        let ghost t = self.toks();
        let ghost pos0 = self.pos as int;
        self.advance();
        let c = match self.parse_expr() {
            Ok(e) => e,
            Err(er) => {
                return Err(er);
            },
        };
        proof {
            assert(bump(t, pos0, self.pos as int) == self.pos as int);
            assert(p_expr(t, pos0 + 1) == Some((c@, self.pos as int)));
        }
        let ghost p1 = self.pos as int;
        let ghost symA = symbols@;
        let tb = match self.parse_statement(symbols) {
            Ok(s) => s,
            Err(er) => {
                return Err(er);
            },
        };
        proof {
            assert(bump(t, p1, self.pos as int) == self.pos as int);
        }
        let ghost p2 = self.pos as int;
        let ghost regs1 = p_stmt(t, p1)->Some_0.2;
        proof {
            assert(p_stmt(t, p1) == Some((tb@, p2, regs1)));
            assert(symbols@ == syms_plus(symA, regs1));
        }
        if matches!(self.kind_at(0), TokKind::Else) {
            self.advance();
            let eb = match self.parse_statement(symbols) {
                Ok(s) => s,
                Err(er) => {
                    return Err(er);
                },
            };
            let ghost p3 = self.pos as int;
            let ghost regs2 = p_stmt(t, p2 + 1)->Some_0.2;
            let res = Stmt::If(c, Box::new(tb), Some(Box::new(eb)));
            proof {
                assert(p_stmt(t, p2 + 1) == Some((eb@, p3, regs2)));
                lemma_syms_plus_concat(symA, regs1, regs2);
                assert(res@ == StmtV::If(c@, Box::new(tb@), Some(Box::new(eb@))));
                assert(p_if(t, pos0) == Some((res@, p3, regs1 + regs2)));
            }
            Ok(res)
        } else {
            let res = Stmt::If(c, Box::new(tb), None);
            proof {
                assert(res@ == StmtV::If(c@, Box::new(tb@), None));
                assert(p_if(t, pos0) == Some((res@, p2, regs1)));
            }
            Ok(res)
        }
    }

    /// `while` with a single body statement.
    #[verifier::loop_isolation(false)]
    fn parse_while(&mut self, symbols: &mut SymbolTable) -> (r: Result<Stmt, ParseError>)
        requires
            old(self).wf(),
            !(tv(old(self).toks(), old(self).pos as int) is EOF),
        ensures
            final(self).tokens@ == old(self).tokens@,
            final(self).wf(),
            r is Ok ==> final(self).pos > old(self).pos,
            match p_while(old(self).toks(), old(self).pos as int) {
                Some(v) => r is Ok && r->Ok_0@ == v.0 && final(self).pos as int == v.1 && final(symbols)@ == syms_plus(old(symbols)@, v.2),
                None => r is Err,
            },
        decreases rem(self.toks(), self.pos as int), 5int,
    {
        let ghost t = self.toks();
        let ghost pos0 = self.pos as int;
        self.advance();
        let c = match self.parse_expr() {
            Ok(e) => e,
            Err(er) => {
                return Err(er);
            },
        };
        proof {
            assert(bump(t, pos0, self.pos as int) == self.pos as int);
        }
        let b = match self.parse_statement(symbols) {
            Ok(s) => s,
            Err(er) => {
                return Err(er);
            },
        };
        Ok(Stmt::While(c, Box::new(b)))
    }

    /// A brace block as a statement.
    #[verifier::loop_isolation(false)]
    fn parse_block(&mut self, symbols: &mut SymbolTable) -> (r: Result<Stmt, ParseError>)
        requires
            old(self).wf(),
            !(tv(old(self).toks(), old(self).pos as int) is EOF),
        ensures
            final(self).tokens@ == old(self).tokens@,
            final(self).wf(),
            r is Ok ==> final(self).pos > old(self).pos,
            match p_block_stmt(old(self).toks(), old(self).pos as int) {
                Some(v) => r is Ok && r->Ok_0@ == v.0 && final(self).pos as int == v.1 && final(symbols)@ == syms_plus(old(symbols)@, v.2),
                None => r is Err,
            },
        decreases rem(self.toks(), self.pos as int), 5int,
    {
        self.advance();
        match self.parse_items(symbols) {
            Ok(items) => Ok(Stmt::Block(items)),
            Err(er) => Err(er),
        }
    }

    /// The statements of a block, consuming the closing brace.
    #[verifier::loop_isolation(false)]
    #[verifier::rlimit(80)]
    #[verifier::spinoff_prover]
    fn parse_items(&mut self, symbols: &mut SymbolTable) -> (r: Result<Vec<Stmt>, ParseError>)
        requires
            old(self).wf(),
        ensures
            final(self).tokens@ == old(self).tokens@,
            final(self).wf(),
            r is Ok ==> final(self).pos > old(self).pos,
            match p_items(old(self).toks(), old(self).pos as int) {
                Some(v) => r is Ok && stmts_view(r->Ok_0@) == v.0 && final(self).pos as int == v.1
                    && final(symbols)@ == syms_plus(old(symbols)@, v.2),
                None => r is Err,
            },
        decreases rem(self.toks(), self.pos as int), 12int,
    {
        let ghost t = self.toks();
        let ghost pos0 = self.pos as int;
        let mut out: Vec<Stmt> = Vec::new();
        let ghost mut regs_done: Seq<Seq<char>> = Seq::empty();
        proof {
            lemma_syms_plus_empty(symbols@);
            assert(stmts_view(out@) =~= Seq::<StmtV>::empty());
        }
        while !matches!(self.kind_at(0), TokKind::EOF | TokKind::RBrace)
            invariant
                self.tokens@ == old(self).tokens@,
                self.wf(),
                self.pos >= old(self).pos,
                symbols@ == syms_plus(old(symbols)@, regs_done),
                match p_items(t, self.pos as int) {
                    Some(v) => p_items(t, pos0) == Some(
                        ((stmts_view(out@) + v.0), v.1, regs_done + v.2),
                    ),
                    None => p_items(t, pos0) is None,
                },
            decreases rem(t, self.pos as int),
        {
            if matches!(self.kind_at(0), TokKind::Newline) {
                self.advance();
            } else {
                let ghost cur = self.pos as int;
                let ghost sym_before = symbols@;
                let s = match self.parse_statement(symbols) {
                    Ok(s) => s,
                    Err(er) => {
                        return Err(er);
                    },
                };
                proof {
                    assert(bump(t, cur, self.pos as int) == self.pos as int);
                }
                let ghost stepv = p_stmt(t, cur)->Some_0;
                let ghost prev = out@;
                out.push(s);
                proof {
                    assert(out@.drop_last() =~= prev);
                    assert(out@.last() == s);
                    assert(stmts_view(out@) == stmts_view(prev).push(s@));
                    lemma_syms_plus_concat(old(symbols)@, regs_done, stepv.2);
                    regs_done = regs_done + stepv.2;
                    match p_items(t, self.pos as int) {
                        Some(v) => {
                            assert(stmts_view(prev) + (seq![s@] + v.0) =~= stmts_view(out@) + v.0);
                            assert(regs_done + v.2 =~= (regs_done.subrange(
                                0,
                                regs_done.len() - stepv.2.len(),
                            ) + (stepv.2 + v.2)));
                        },
                        None => {},
                    }
                }
            }
        }
        if matches!(self.kind_at(0), TokKind::RBrace) {
            self.advance();
            proof {
                assert(stmts_view(out@) + Seq::<StmtV>::empty() =~= stmts_view(out@));
                assert(regs_done + Seq::<Seq<char>>::empty() =~= regs_done);
            }
            Ok(out)
        } else {
            Err(ParseError::Syntax)
        }
    }

    /// The typed parameter list of a function or method.
    #[verifier::loop_isolation(false)]
    #[verifier::rlimit(50)]
    #[verifier::spinoff_prover]
    fn parse_params(&mut self) -> (r: Result<Vec<String>, ParseError>)
        requires
            old(self).wf(),
        ensures
            final(self).tokens@ == old(self).tokens@,
            final(self).wf(),
            r is Ok ==> final(self).pos > old(self).pos,
            match p_params(old(self).toks(), old(self).pos as int) {
                Some(v) => r is Ok && names_view(r->Ok_0@) == v.0 && final(self).pos as int
                    == v.1,
                None => r is Err,
            },
        decreases rem(self.toks(), self.pos as int), 5int,
    {
        let ghost t = self.toks();
        let ghost pos0 = self.pos as int;
        if matches!(self.kind_at(0), TokKind::RParen) {
            self.advance();
            let out: Vec<String> = Vec::new();
            assert(names_view(out@) =~= Seq::<Seq<char>>::empty());
            return Ok(out);
        }
        let mut out: Vec<String> = Vec::new();
        let mut closed = false;
        assert(names_view(out@) =~= Seq::<Seq<char>>::empty());
        while !closed
            invariant
                self.tokens@ == old(self).tokens@,
                self.wf(),
                self.pos >= old(self).pos,
                closed ==> self.pos > old(self).pos && p_params(t, pos0) == Some(
                    (names_view(out@), self.pos as int),
                ),
                !closed ==> match p_params_more(t, self.pos as int) {
                    Some(v) => p_params(t, pos0) == Some(((names_view(out@) + v.0), v.1)),
                    None => p_params(t, pos0) is None,
                },
            decreases rem(t, self.pos as int), (if closed { 0int } else { 1int }),
        {
            if !matches!(self.kind_at(0), TokKind::Int | TokKind::Void | TokKind::StrType) {
                return Err(ParseError::Syntax);
            }
            self.advance();
            let ghost done = names_view(out@);
            let pn = match self.take_ident() {
                Some(p) => p,
                None => {
                    return Err(ParseError::Syntax);
                },
            };
            let ghost prev = out@;
            let ghost pnv = pn@;
            out.push(pn);
            proof {
                assert(out@.drop_last() =~= prev);
                assert(out@.last()@ == pnv);
                assert(names_view(out@) =~= done.push(pnv));
            }
            if matches!(self.kind_at(0), TokKind::Comma) {
                self.advance();
                proof {
                    match p_params_more(t, self.pos as int) {
                        Some(v) => {
                            assert(done + (seq![pnv] + v.0) =~= names_view(out@) + v.0);
                        },
                        None => {},
                    }
                }
            } else if matches!(self.kind_at(0), TokKind::RParen) {
                self.advance();
                closed = true;
                assert(done + seq![pnv] =~= names_view(out@));
            } else {
                return Err(ParseError::Syntax);
            }
        }
        Ok(out)
    }

    /// Seeds one local slot per parameter, in order, continuing from the
    /// current counter; touches nothing but the local scope.
    fn seed_locals(symbols: &mut SymbolTable, params: &Vec<String>)
        ensures
            final(symbols)@.functions == old(symbols)@.functions,
            final(symbols)@.classes == old(symbols)@.classes,
            final(symbols)@.variables == old(symbols)@.variables,
            final(symbols)@.next_var == old(symbols)@.next_var,
    {
        let mut k: usize = 0;
        while k < params.len()
            invariant
                symbols@.functions == old(symbols)@.functions,
                symbols@.classes == old(symbols)@.classes,
                symbols@.variables == old(symbols)@.variables,
                symbols@.next_var == old(symbols)@.next_var,
            decreases params.len() - k,
        {
            if symbols.next_local_index < u32::MAX {
                let slot = symbols.next_local_index;
                let pn = params[k].clone();
                symbols.locals.push((pn, slot));
                symbols.next_local_index = slot + 1;
            }
            k = k + 1;
        }
    }

    /// The parameter list with the implicit receiver in front.
    fn with_this(this_s: String, params: &Vec<String>) -> (r: Vec<String>)
        ensures
            names_view(r@) == seq![this_s@] + names_view(params@),
    {
        let mut ps: Vec<String> = Vec::new();
        let ghost tsv = this_s@;
        ps.push(this_s);
        proof {
            assert(names_view(ps@) =~= seq![tsv]);
            assert(params@.subrange(0, 0) =~= Seq::<String>::empty());
            assert(names_view(Seq::<String>::empty()) =~= Seq::<Seq<char>>::empty());
            assert(names_view(ps@) =~= seq![tsv] + names_view(params@.subrange(0, 0)));
        }
        let mut i: usize = 0;
        while i < params.len()
            invariant
                i <= params.len(),
                names_view(ps@) == seq![tsv] + names_view(params@.subrange(0, i as int)),
            decreases params.len() - i,
        {
            let ghost prevp = ps@;
            let pc = params[i].clone();
            let ghost pcv = pc@;
            ps.push(pc);
            proof {
                assert(names_view(ps@) =~= names_view(prevp).push(pcv));
                assert(params@.subrange(0, i + 1).drop_last() =~= params@.subrange(0, i as int));
                assert(params@.subrange(0, i + 1).last()@ == pcv);
                assert(names_view(params@.subrange(0, i + 1)) =~= names_view(
                    params@.subrange(0, i as int),
                ).push(pcv));
                assert(seq![tsv] + names_view(params@.subrange(0, i + 1)) =~= (seq![tsv]
                    + names_view(params@.subrange(0, i as int))).push(pcv));
            }
            i = i + 1;
        }
        proof {
            assert(params@.subrange(0, params@.len() as int) =~= params@);
        }
        ps
    }

    /// Registers `fname` with the placeholder address and opens a fresh
    /// local scope, handing back the saved one.
    fn open_scope(symbols: &mut SymbolTable, fname: &String) -> (saved: (Vec<(String, u32)>, u32))
        ensures
            final(symbols)@ == (SymV {
                functions: old(symbols)@.functions.push((fname@, 0u32)),
                locals: Seq::<(Seq<char>, u32)>::empty(),
                next_local: 0u32,
                ..old(symbols)@
            }),
            pairs_view(saved.0@) == old(symbols)@.locals,
            saved.1 == old(symbols)@.next_local,
    {
        let nm2 = fname.clone();
        symbols.functions.push(FunctionInfo { name: nm2, address: 0 });
        proof {
            assert(fns_view(symbols.functions@) =~= old(symbols)@.functions.push((fname@, 0u32)));
        }
        let mut saved_locals: Vec<(String, u32)> = Vec::new();
        core::mem::swap(&mut saved_locals, &mut symbols.locals);
        let saved_next = symbols.next_local_index;
        symbols.next_local_index = 0;
        proof {
            assert(pairs_view(symbols.locals@) =~= Seq::<(Seq<char>, u32)>::empty());
            assert(symbols@ =~= (SymV {
                functions: old(symbols)@.functions.push((fname@, 0u32)),
                locals: Seq::<(Seq<char>, u32)>::empty(),
                next_local: 0u32,
                ..old(symbols)@
            }));
        }
        (saved_locals, saved_next)
    }

    /// A function definition; the name is registered (placeholder address)
    /// before the body is parsed, and the local scope is saved, reseeded
    /// from the parameters, and restored afterwards.
    #[verifier::loop_isolation(false)]
    #[verifier::rlimit(100)]
    #[verifier::spinoff_prover]
    fn parse_function(&mut self, symbols: &mut SymbolTable) -> (r: Result<Stmt, ParseError>)
        requires
            old(self).wf(),
            !(tv(old(self).toks(), old(self).pos as int) is EOF),
        ensures
            final(self).tokens@ == old(self).tokens@,
            final(self).wf(),
            r is Ok ==> final(self).pos > old(self).pos,
            match p_function(old(self).toks(), old(self).pos as int) {
                Some(v) => r is Ok && r->Ok_0@ == v.0 && final(self).pos as int == v.1 && final(symbols)@ == syms_plus(old(symbols)@, v.2),
                None => r is Err,
            },
        decreases rem(self.toks(), self.pos as int), 5int,
    {
        let ghost t = self.toks();
        let ghost pos0 = self.pos as int;
        self.advance();
        let name = match self.take_ident() {
            Some(n) => n,
            None => {
                return Err(ParseError::Syntax);
            },
        };
        if !matches!(self.kind_at(0), TokKind::LParen) {
            return Err(ParseError::Syntax);
        }
        self.advance();
        let params = match self.parse_params() {
            Ok(p) => p,
            Err(er) => {
                return Err(er);
            },
        };
        proof {
            assert(bump(t, pos0, self.pos as int) == self.pos as int);
        }
        let ghost sym0 = symbols@;
        let saved = Self::open_scope(symbols, &name);
        proof {
            lemma_syms_plus_one(sym0, name@);
        }
        let saved_locals = saved.0;
        let saved_next = saved.1;
        Self::seed_locals(symbols, &params);
        if self.is_at_end() {
            return Err(ParseError::Syntax);
        }
        let ghost p1 = self.pos as int;
        let ghost sym_body0 = symbols@;
        let body_stmt = match self.parse_block(symbols) {
            Ok(b) => b,
            Err(er) => {
                return Err(er);
            },
        };
        let ghost body_regs = p_block_stmt(t, p1)->Some_0.2;
        let body = match body_stmt {
            Stmt::Block(ss) => ss,
            _ => Vec::new(),
        };
        symbols.locals = saved_locals;
        symbols.next_local_index = saved_next;
        proof {
            assert(symbols@ =~= syms_plus(syms_plus(sym0, seq![name@]), body_regs));
            lemma_syms_plus_concat(sym0, seq![name@], body_regs);
            assert(seq![name@] + body_regs =~= p_function(t, pos0)->Some_0.2);
        }
        Ok(Stmt::Function(name, params, body))
    }

    /// A class definition: fields and methods told apart by lookahead.
    #[verifier::loop_isolation(false)]
    #[verifier::spinoff_prover]
    fn parse_class_decl(&mut self, symbols: &mut SymbolTable) -> (r: Result<Stmt, ParseError>)
        requires
            old(self).wf(),
            !(tv(old(self).toks(), old(self).pos as int) is EOF),
        ensures
            final(self).tokens@ == old(self).tokens@,
            final(self).wf(),
            r is Ok ==> final(self).pos > old(self).pos,
            match p_class(old(self).toks(), old(self).pos as int) {
                Some(v) => r is Ok && r->Ok_0@ == v.0 && final(self).pos as int == v.1 && final(symbols)@ == syms_plus(old(symbols)@, v.2),
                None => r is Err,
            },
        decreases rem(self.toks(), self.pos as int), 5int,
    {
        let ghost t = self.toks();
        let ghost pos0 = self.pos as int;
        self.advance();
        let name = match self.take_ident() {
            Some(n) => n,
            None => {
                return Err(ParseError::Syntax);
            },
        };
        if !matches!(self.kind_at(0), TokKind::LBrace) {
            return Err(ParseError::Syntax);
        }
        self.advance();
        match self.parse_members(symbols, &name) {
            Ok(fm) => {
                let (fields, methods) = fm;
                Ok(Stmt::Class(name, fields, methods))
            },
            Err(er) => Err(er),
        }
    }

    /// The members of a class body, consuming the closing brace.
    #[verifier::loop_isolation(false)]
    #[verifier::rlimit(100)]
    #[verifier::spinoff_prover]
    fn parse_members(&mut self, symbols: &mut SymbolTable, class_name: &String) -> (r: Result<
        (Vec<String>, Vec<Stmt>),
        ParseError,
    >)
        requires
            old(self).wf(),
        ensures
            final(self).tokens@ == old(self).tokens@,
            final(self).wf(),
            r is Ok ==> final(self).pos > old(self).pos,
            match p_members(old(self).toks(), old(self).pos as int, class_name@) {
                Some(v) => r is Ok && names_view(r->Ok_0.0@) == v.0 && stmts_view(r->Ok_0.1@)
                    == v.1 && final(self).pos as int == v.2 && final(symbols)@ == syms_plus(
                    old(symbols)@,
                    v.3,
                ),
                None => r is Err,
            },
        decreases rem(self.toks(), self.pos as int), 8int,
    {
        let ghost t = self.toks();
        let ghost pos0 = self.pos as int;
        let mut fields: Vec<String> = Vec::new();
        let mut methods: Vec<Stmt> = Vec::new();
        let ghost mut regs_done: Seq<Seq<char>> = Seq::empty();
        proof {
            lemma_syms_plus_empty(symbols@);
            assert(names_view(fields@) =~= Seq::<Seq<char>>::empty());
            assert(stmts_view(methods@) =~= Seq::<StmtV>::empty());
        }
        while !matches!(self.kind_at(0), TokKind::EOF | TokKind::RBrace)
            invariant
                self.tokens@ == old(self).tokens@,
                self.wf(),
                self.pos >= old(self).pos,
                symbols@ == syms_plus(old(symbols)@, regs_done),
                match p_members(t, self.pos as int, class_name@) {
                    Some(v) => p_members(t, pos0, class_name@) == Some(
                        (
                            (names_view(fields@) + v.0),
                            (stmts_view(methods@) + v.1),
                            v.2,
                            regs_done + v.3,
                        ),
                    ),
                    None => p_members(t, pos0, class_name@) is None,
                },
            decreases rem(t, self.pos as int),
        {
            if matches!(self.kind_at(0), TokKind::Newline) {
                self.advance();
            } else if matches!(self.kind_at(1), TokKind::Identifier) && matches!(
                self.kind_at(2),
                TokKind::LParen,
            ) {
                let ghost cur = self.pos as int;
                let m = match self.parse_method(symbols, class_name) {
                    Ok(m) => m,
                    Err(er) => {
                        return Err(er);
                    },
                };
                proof {
                    assert(bump(t, cur, self.pos as int) == self.pos as int);
                }
                let ghost stepv = p_method(t, cur, class_name@)->Some_0;
                let ghost prevm = methods@;
                methods.push(m);
                proof {
                    assert(methods@.drop_last() =~= prevm);
                    assert(methods@.last() == m);
                    assert(stmts_view(methods@) == stmts_view(prevm).push(m@));
                    lemma_syms_plus_concat(old(symbols)@, regs_done, stepv.2);
                    regs_done = regs_done + stepv.2;
                    match p_members(t, self.pos as int, class_name@) {
                        Some(v) => {
                            assert(stmts_view(prevm) + (seq![m@] + v.1) =~= stmts_view(methods@)
                                + v.1);
                            assert((regs_done.subrange(0, regs_done.len() - stepv.2.len()) + (
                            stepv.2 + v.3)) =~= regs_done + v.3);
                        },
                        None => {},
                    }
                }
            } else {
                if !matches!(
                    self.kind_at(0),
                    TokKind::Int | TokKind::StrType | TokKind::Identifier,
                ) {
                    return Err(ParseError::Syntax);
                }
                self.advance();
                let ghost donef = names_view(fields@);
                let f = match self.take_ident() {
                    Some(f) => f,
                    None => {
                        return Err(ParseError::Syntax);
                    },
                };
                let ghost prevf = fields@;
                let ghost fv = f@;
                fields.push(f);
                proof {
                    assert(fields@.drop_last() =~= prevf);
                    assert(fields@.last()@ == fv);
                    assert(names_view(fields@) =~= donef.push(fv));
                    match p_members(t, self.pos as int, class_name@) {
                        Some(v) => {
                            assert(donef + (seq![fv] + v.0) =~= names_view(fields@) + v.0);
                        },
                        None => {},
                    }
                }
            }
        }
        if matches!(self.kind_at(0), TokKind::RBrace) {
            self.advance();
            proof {
                assert(names_view(fields@) + Seq::<Seq<char>>::empty() =~= names_view(fields@));
                assert(stmts_view(methods@) + Seq::<StmtV>::empty() =~= stmts_view(methods@));
                assert(regs_done + Seq::<Seq<char>>::empty() =~= regs_done);
            }
            Ok((fields, methods))
        } else {
            Err(ParseError::Syntax)
        }
    }

    /// The header of a method definition: return type, name (mangled with
    /// the class name), and parameter list.
    #[verifier::loop_isolation(false)]
    #[verifier::rlimit(100)]
    #[verifier::spinoff_prover]
    fn parse_method_header(&mut self, class_name: &String) -> (r: Result<
        (String, Vec<String>),
        ParseError,
    >)
        requires
            old(self).wf(),
            !(tv(old(self).toks(), old(self).pos as int) is EOF),
        ensures
            final(self).tokens@ == old(self).tokens@,
            final(self).wf(),
            ({
                let t = old(self).toks();
                let pos0 = old(self).pos as int;
                if (tv(t, pos0 + 1) is Identifier) && (tv(t, pos0 + 2) is LParen) {
                    match p_params(t, pos0 + 3) {
                        Some(v) => r is Ok && r->Ok_0.0@ == class_name@ + seq!['_'] + tv(
                            t,
                            pos0 + 1,
                        )->Identifier_0 && names_view(r->Ok_0.1@) == v.0 && final(self).pos as int == v.1 && final(self).pos > old(self).pos,
                        None => r is Err,
                    }
                } else {
                    r is Err
                }
            }),
        decreases rem(self.toks(), self.pos as int), 5int,
    {
        let ghost t = self.toks();
        let ghost pos0 = self.pos as int;
        self.advance();
        let mname = match self.take_ident() {
            Some(n) => n,
            None => {
                return Err(ParseError::Syntax);
            },
        };
        let mut full = class_name.clone();
        full.append("_");
        full.append(mname.as_str());
        proof {
            reveal_strlit("_");
            assert(("_")@ =~= seq!['_']);
            assert(full@ == class_name@ + seq!['_'] + mname@);
        }
        if !matches!(self.kind_at(0), TokKind::LParen) {
            return Err(ParseError::Syntax);
        }
        self.advance();
        let params = match self.parse_params() {
            Ok(p) => p,
            Err(er) => {
                return Err(er);
            },
        };
        Ok((full, params))
    }

    /// A method definition, registered under its mangled name with the
    /// implicit `this` parameter in slot 0.
    #[verifier::loop_isolation(false)]
    #[verifier::rlimit(100)]
    #[verifier::spinoff_prover]
    fn parse_method(&mut self, symbols: &mut SymbolTable, class_name: &String) -> (r: Result<
        Stmt,
        ParseError,
    >)
        requires
            old(self).wf(),
            !(tv(old(self).toks(), old(self).pos as int) is EOF),
        ensures
            final(self).tokens@ == old(self).tokens@,
            final(self).wf(),
            r is Ok ==> final(self).pos > old(self).pos,
            match p_method(old(self).toks(), old(self).pos as int, class_name@) {
                Some(v) => r is Ok && r->Ok_0@ == v.0 && final(self).pos as int == v.1 && final(symbols)@ == syms_plus(old(symbols)@, v.2),
                None => r is Err,
            },
        decreases rem(self.toks(), self.pos as int), 5int,
    {
        let ghost t = self.toks();
        let ghost pos0 = self.pos as int;
        let hd = match self.parse_method_header(class_name) {
            Ok(h) => h,
            Err(er) => {
                return Err(er);
            },
        };
        let (full, params) = hd;
        proof {
            assert(p_params(t, pos0 + 3) == Some((names_view(params@), self.pos as int)));
            assert(full@ == class_name@ + seq!['_'] + tv(t, pos0 + 1)->Identifier_0);
            assert(bump(t, pos0, self.pos as int) == self.pos as int);
        }
        let ghost p1 = self.pos as int;
        let ghost sym0 = symbols@;
        let saved = Self::open_scope(symbols, &full);
        proof {
            lemma_syms_plus_one(sym0, full@);
        }
        let saved_locals = saved.0;
        let saved_next = saved.1;
        let this_s = String::from_str("this");
        proof {
            reveal_strlit("this");
            assert(this_s@ =~= seq!['t', 'h', 'i', 's']);
        }
        symbols.locals.push((this_s.clone(), 0));
        symbols.next_local_index = 1;
        Self::seed_locals(symbols, &params);
        if self.is_at_end() {
            return Err(ParseError::Syntax);
        }
        let ghost sym_mid = symbols@;
        let body_stmt = match self.parse_block(symbols) {
            Ok(b) => b,
            Err(er) => {
                return Err(er);
            },
        };
        let ghost p2 = self.pos as int;
        let ghost body_regs = p_block_stmt(t, p1)->Some_0.2;
        proof {
            assert(p_block_stmt(t, p1) == Some((body_stmt@, p2, body_regs)));
            assert(symbols@ == syms_plus(sym_mid, body_regs));
        }
        let body = match body_stmt {
            Stmt::Block(ss) => ss,
            _ => Vec::new(),
        };
        symbols.locals = saved_locals;
        symbols.next_local_index = saved_next;
        proof {
            assert(symbols@ =~= syms_plus(syms_plus(sym0, seq![full@]), body_regs));
            lemma_syms_plus_concat(sym0, seq![full@], body_regs);
        }
        let ps = Self::with_this(this_s, &params);
        let res = Stmt::Function(full, ps, body);
        Ok(res)
    }

    /// The whole program: statements until the end marker, blank lines
    /// skipped. On success the statements are exactly what the model
    /// gives, and the symbol table has gained exactly the functions the
    /// source registers, in order.
    #[verifier::loop_isolation(false)]
    #[verifier::rlimit(60)]
    #[verifier::spinoff_prover]
    pub fn parse(&mut self, symbols: &mut SymbolTable) -> (r: Result<Vec<Stmt>, ParseError>)
        requires
            old(self).wf(),
        ensures
            final(self).tokens@ == old(self).tokens@,
            final(self).wf(),
            match p_program(old(self).toks(), old(self).pos as int) {
                Some(v) => r is Ok && stmts_view(r->Ok_0@) == v.0 && final(self).pos as int == v.1
                    && final(symbols)@ == syms_plus(old(symbols)@, v.2),
                None => r is Err,
            },
    {
        let ghost t = self.toks();
        let ghost pos0 = self.pos as int;
        let mut out: Vec<Stmt> = Vec::new();
        let ghost mut regs_done: Seq<Seq<char>> = Seq::empty();
        proof {
            lemma_syms_plus_empty(symbols@);
            assert(stmts_view(out@) =~= Seq::<StmtV>::empty());
        }
        while !self.is_at_end()
            invariant
                self.tokens@ == old(self).tokens@,
                self.wf(),
                self.pos >= old(self).pos,
                symbols@ == syms_plus(old(symbols)@, regs_done),
                match p_program(t, self.pos as int) {
                    Some(v) => p_program(t, pos0) == Some(
                        ((stmts_view(out@) + v.0), v.1, regs_done + v.2),
                    ),
                    None => p_program(t, pos0) is None,
                },
            decreases rem(t, self.pos as int),
        {
            if matches!(self.kind_at(0), TokKind::Newline) {
                self.advance();
            } else {
                let ghost cur = self.pos as int;
                let s = match self.parse_statement(symbols) {
                    Ok(s) => s,
                    Err(er) => {
                        return Err(er);
                    },
                };
                proof {
                    assert(bump(t, cur, self.pos as int) == self.pos as int);
                }
                let ghost stepv = p_stmt(t, cur)->Some_0;
                let ghost prev = out@;
                out.push(s);
                proof {
                    assert(out@.drop_last() =~= prev);
                    assert(out@.last() == s);
                    assert(stmts_view(out@) == stmts_view(prev).push(s@));
                    lemma_syms_plus_concat(old(symbols)@, regs_done, stepv.2);
                    regs_done = regs_done + stepv.2;
                    match p_program(t, self.pos as int) {
                        Some(v) => {
                            assert(stmts_view(prev) + (seq![s@] + v.0) =~= stmts_view(out@) + v.0);
                            assert((regs_done.subrange(0, regs_done.len() - stepv.2.len()) + (
                            stepv.2 + v.2)) =~= regs_done + v.2);
                        },
                        None => {},
                    }
                }
            }
        }
        proof {
            assert(stmts_view(out@) + Seq::<StmtV>::empty() =~= stmts_view(out@));
            assert(regs_done + Seq::<Seq<char>>::empty() =~= regs_done);
        }
        Ok(out)
    }
}

/// For nonnegative `d` and the modulus `m` of 32 bits, the Euclidean
/// remainder of `-(d + 1)` is `m - 1 - d % m`.
proof fn lemma_neg_mod_units(d: int)
    requires
        d >= 0,
    ensures
        (-(d + 1)) % 0x1_0000_0000 == 0x1_0000_0000 - 1 - d % 0x1_0000_0000,
{
    let m = 0x1_0000_0000int;
    let q = d % m;
    vstd::arithmetic::div_mod::lemma_fundamental_div_mod(d, m);
    let k = d / m;
    assert(-(d + 1) == m * (-k - 1) + (m - 1 - q)) by (nonlinear_arith)
        requires
            d == m * k + q,
            m == 0x1_0000_0000int,
    ;
    vstd::arithmetic::div_mod::lemma_mod_multiples_vanish(-k - 1, m - 1 - q, m);
    vstd::arithmetic::div_mod::lemma_mod_bound(d, m);
    vstd::arithmetic::div_mod::lemma_small_mod((m - 1 - q) as nat, m as nat);
}

} // verus!
