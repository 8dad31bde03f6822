use amber_core::ast::{Expr, Op, Stmt};
use amber_core::compile::{compile, compile_tokens, BuildError};
use amber_core::emitter::Emitter;
use amber_core::lexer::{Lexer, Token};
use amber_core::module::{module_bytes, read_module, to_module, Module};
use amber_core::parser::Parser;
use amber_core::semant::SymbolTable;

fn compile_ok(src: &str) -> Module {
    compile(String::from(src)).expect("expected successful compilation")
}

fn u32_at(code: &[u8], at: usize) -> u32 {
    u32::from_le_bytes([code[at], code[at + 1], code[at + 2], code[at + 3]])
}

#[test]
fn operand_order_and_precedence() {
    // 1 + 2 * 3 evaluates operands left to right and multiplies first.
    let m = compile_ok("print 1 + 2 * 3");
    let expected: Vec<u8> = vec![
        0x10, 1, 0, 0, 0, // push 1
        0x10, 2, 0, 0, 0, // push 2
        0x10, 3, 0, 0, 0, // push 3
        0x22, // mul
        0x20, // add
        0x81, // print
        0x00, // halt
    ];
    assert_eq!(m.code, expected);
}

#[test]
fn global_slots_in_declaration_order() {
    let m = compile_ok("var a = 1\nvar b = 2");
    let expected: Vec<u8> = vec![
        0x10, 1, 0, 0, 0, // push 1
        0x11, 0, 0, 0, 0, // store global slot 0 (a)
        0x10, 2, 0, 0, 0, // push 2
        0x11, 1, 0, 0, 0, // store global slot 1 (b)
        0x00, // halt
    ];
    assert_eq!(m.code, expected);
}

#[test]
fn forward_call_is_patched_to_entry() {
    // g is called before its definition; after finalization the call
    // site's 4-byte target must equal g's recorded entry address.
    let source = "int f() { return g() }\nint g() { return 1 }";
    let mut lexer = Lexer::new(String::from(source));
    let tokens = lexer.tokenize().unwrap();
    let mut symbols = SymbolTable::new();
    let mut parser = Parser::new(tokens);
    let ast = parser.parse(&mut symbols).unwrap();
    let mut emitter = Emitter::new();
    for s in &ast {
        emitter.emit_stmt(s, &mut symbols).unwrap();
    }
    emitter.emit_byte(0x00);
    emitter.finalize(&symbols).unwrap();
    assert_eq!(emitter.calls_to_patch.len(), 1);
    let (site, callee) = (&emitter.calls_to_patch[0].0, &emitter.calls_to_patch[0].1);
    assert_eq!(callee, "g");
    let patched = u32_at(&emitter.code, *site);
    let g = symbols
        .functions
        .iter()
        .find(|f| f.name == "g")
        .expect("g registered");
    assert_ne!(g.address, 0);
    assert_eq!(patched, g.address);
}

#[test]
fn local_scope_shadows_and_restores() {
    // Inside f, x is the parameter (local slot 0) although a global x
    // exists; after the body, x is the global slot 0 again.
    let m = compile_ok("var x = 1\nint f(int x) { return x }\nx = 2");
    let expected: Vec<u8> = vec![
        0x10, 1, 0, 0, 0, // push 1
        0x11, 0, 0, 0, 0, // store global 0 (x)
        0x01, 7, 0, 0, 0, // jump over f's body
        0x14, 0, 0, 0, 0, // load local 0 (parameter x)
        0x31, // return
        0x31, // implicit return
        0x10, 2, 0, 0, 0, // push 2
        0x11, 0, 0, 0, 0, // store global 0 (x)
        0x00, // halt
    ];
    assert_eq!(m.code, expected);
}

#[test]
fn jump_offsets_land_on_branch_targets() {
    // A while loop: the exit jump's offset decodes, from just past its
    // placeholder, to the instruction after the backward jump; the
    // backward jump's offset decodes to the loop start.
    let m = compile_ok("var i = 0\nwhile i < 3 { i = i + 1 }");
    let code = &m.code;
    // Layout: decl 0..10, loop start 10, condition 10..21,
    // jump-if-false at 21 (operand 22..26), body 26..42,
    // backward jump at 42 (operand 43..47), halt at 47.
    assert_eq!(code[21], 0x02);
    let exit_off = u32_at(code, 22) as i64;
    assert_eq!(26 + exit_off, 47); // lands just after the backward jump
    assert_eq!(code[42], 0x01);
    let back_off = u32_at(code, 43) as u32 as i32 as i64;
    assert_eq!(47 + back_off, 10); // lands on the loop start
    assert_eq!(code[47], 0x00);
}

#[test]
fn if_else_offsets_land_on_branches() {
    let m = compile_ok("var a = 0\nif a < 1 { a = 1 } else { a = 2 }");
    let code = &m.code;
    // decl 0..10, condition 10..21, jump-if-false at 21 (operand 22..26),
    // then branch 26..36, skip jump at 36 (operand 37..41),
    // else branch 41..51, halt at 51.
    assert_eq!(code[21], 0x02);
    let to_else = u32_at(code, 22) as i64;
    assert_eq!(26 + to_else, 41);
    assert_eq!(code[36], 0x01);
    let to_end = u32_at(code, 37) as i64;
    assert_eq!(41 + to_end, 51);
}

#[test]
fn module_round_trips() {
    let m = compile_ok("print \"hi\"\nprint \"hi\"\nprint \"yo\"");
    // Deduplicated pool: "hi" interned once, "yo" once, in first-use order.
    assert_eq!(m.constants.len(), 2);
    assert_eq!(m.constants[0], b"hi".to_vec());
    assert_eq!(m.constants[1], b"yo".to_vec());
    let bytes = module_bytes(&m).unwrap();
    assert_eq!(&bytes[0..4], b"AMBR");
    let back = read_module(&bytes).expect("well-formed module reads back");
    assert_eq!(back.version, m.version);
    assert_eq!(back.entry, m.entry);
    assert_eq!(back.constants, m.constants);
    assert_eq!(back.code, m.code);
}

#[test]
fn undefined_variable_aborts() {
    assert!(matches!(
        compile(String::from("print y")),
        Err(BuildError::Emit(_))
    ));
}

#[test]
fn undefined_callee_aborts() {
    assert!(matches!(
        compile(String::from("int f() { return g() }")),
        Err(BuildError::Emit(_))
    ));
}

#[test]
fn parse_error_aborts() {
    assert!(matches!(
        compile(String::from("var = 3")),
        Err(BuildError::Parse(_))
    ));
}

#[test]
fn invalid_assignment_target_aborts() {
    assert!(matches!(
        compile(String::from("var a = 1\na + 1 = 2")),
        Err(BuildError::Parse(_))
    ));
}

#[test]
fn expression_statement_pops_its_result() {
    let m = compile_ok("var a = 1\na + 1");
    let expected: Vec<u8> = vec![
        0x10, 1, 0, 0, 0, // push 1
        0x11, 0, 0, 0, 0, // store global 0
        0x12, 0, 0, 0, 0, // load global 0
        0x10, 1, 0, 0, 0, // push 1
        0x20, // add
        0x80, // pop: the statement's result is discarded
        0x00, // halt
    ];
    assert_eq!(m.code, expected);
}

#[test]
fn string_pool_index_emitted() {
    let m = compile_ok("print \"a\"");
    let expected: Vec<u8> = vec![
        0x15, 0, 0, 0, 0, // load constant 0
        0x81, // print
        0x00, // halt
    ];
    assert_eq!(m.code, expected);
    assert_eq!(m.constants, vec![b"a".to_vec()]);
}

#[test]
fn tokenizer_produces_end_marker() {
    let mut lexer = Lexer::new(String::from("var a = 1 // trailing comment"));
    let toks = lexer.tokenize().unwrap();
    assert!(matches!(toks.last(), Some(Token::EOF)));
    assert!(matches!(toks[0], Token::Var));
    assert!(matches!(toks[2], Token::Equals));
}

#[test]
fn method_names_are_mangled() {
    let source = "class Point {\nint getx(int a) { return a }\n}";
    let mut lexer = Lexer::new(String::from(source));
    let tokens = lexer.tokenize().unwrap();
    let mut symbols = SymbolTable::new();
    let mut parser = Parser::new(tokens);
    let ast = parser.parse(&mut symbols).unwrap();
    assert!(symbols.functions.iter().any(|f| f.name == "Point_getx"));
    match &ast[0] {
        Stmt::Class(name, _fields, methods) => {
            assert_eq!(name, "Point");
            match &methods[0] {
                Stmt::Function(mname, params, _body) => {
                    assert_eq!(mname, "Point_getx");
                    assert_eq!(params[0], "this");
                    assert_eq!(params[1], "a");
                }
                other => panic!("expected a method function, got {:?}", other),
            }
        }
        other => panic!("expected a class statement, got {:?}", other),
    }
}

#[test]
fn comparison_chains_left_associative() {
    let mut lexer = Lexer::new(String::from("1 < 2 < 3"));
    let tokens = lexer.tokenize().unwrap();
    let mut symbols = SymbolTable::new();
    let mut parser = Parser::new(tokens);
    let ast = parser.parse(&mut symbols).unwrap();
    match &ast[0] {
        Stmt::Expression(Expr::Binary(l, Op::LessThan, _r)) => {
            assert!(matches!(&**l, Expr::Binary(_, Op::LessThan, _)));
        }
        other => panic!("expected a comparison chain, got {:?}", other),
    }
}

#[test]
fn compile_tokens_accepts_handmade_stream() {
    // print 7, as a hand-built token stream.
    let tokens = vec![Token::Print, Token::Number(7), Token::EOF];
    let m = compile_tokens(tokens).unwrap();
    let expected: Vec<u8> = vec![0x10, 7, 0, 0, 0, 0x81, 0x00];
    assert_eq!(m.code, expected);
}

#[test]
fn comment_runs_to_line_break() {
    // '//' consumes up to, not including, the newline: the Newline token
    // is still produced.
    let mut lexer = Lexer::new(String::from("x // c\ny"));
    let toks = lexer.tokenize().unwrap();
    assert!(matches!(&toks[0], Token::Identifier(s) if s == "x"));
    assert!(matches!(toks[1], Token::Newline));
    assert!(matches!(&toks[2], Token::Identifier(s) if s == "y"));
    assert!(matches!(toks[3], Token::EOF));
    assert_eq!(toks.len(), 4);
}

#[test]
fn unrecognized_character_skipped() {
    // An unrecognized character produces no token and no error.
    let mut lexer = Lexer::new(String::from("a @ b"));
    let toks = lexer.tokenize().unwrap();
    assert!(matches!(&toks[0], Token::Identifier(s) if s == "a"));
    assert!(matches!(&toks[1], Token::Identifier(s) if s == "b"));
    assert!(matches!(toks[2], Token::EOF));
    assert_eq!(toks.len(), 3);
}

#[test]
fn number_overflow_is_fatal() {
    let mut lexer = Lexer::new(String::from("99999999999999999999"));
    assert!(lexer.tokenize().is_err());
    let mut ok = Lexer::new(String::from("9223372036854775807"));
    let toks = ok.tokenize().unwrap();
    assert!(matches!(toks[0], Token::Number(i64::MAX)));
}

#[test]
fn string_literal_content_kept() {
    let mut lexer = Lexer::new(String::from("\"a b\" x"));
    let toks = lexer.tokenize().unwrap();
    assert!(matches!(&toks[0], Token::StringLit(s) if s == "a b"));
    assert!(matches!(&toks[1], Token::Identifier(s) if s == "x"));
}

#[test]
fn read_module_rejects_corrupt_bytes() {
    let m = compile_ok("print 1");
    let mut bytes = module_bytes(&m).unwrap();
    assert!(read_module(&bytes).is_some());
    bytes[0] = 0x42; // break the magic
    assert!(read_module(&bytes).is_none());
    let short = vec![0x41u8, 0x4d, 0x42];
    assert!(read_module(&short).is_none());
}
