//! The lexical scanner: a longest-match tokenizer producing a flat token
//! sequence. Line breaks are kept as tokens, `//` comments run to the next
//! line break, and unrecognized characters are skipped. The scan is
//! specified by the functional model `lex_m` and the executable `tokenize`
//! is proved to realize it.
use vstd::prelude::*;

verus! {

/// One lexical atom. Immutable once produced.
#[derive(Debug)]
pub enum Token {
    Var,
    Mut,
    Func,
    Class,
    Return,
    Print,
    Int,
    Void,
    /// The `String` type keyword.
    StrType,
    New,
    If,
    Else,
    While,
    Identifier(String),
    Number(i64),
    StringLit(String),
    Equals,
    Plus,
    Minus,
    Star,
    Slash,
    Comma,
    Dot,
    LessThan,
    LParen,
    RParen,
    LBrace,
    RBrace,
    LBracket,
    RBracket,
    Newline,
    EOF,
}

/// Ghost mirror of `Token` with `Seq<char>` payloads.
#[verifier::ext_equal]
pub ghost enum TokV {
    Var,
    Mut,
    Func,
    Class,
    Return,
    Print,
    Int,
    Void,
    StrType,
    New,
    If,
    Else,
    While,
    Identifier(Seq<char>),
    Number(i64),
    StringLit(Seq<char>),
    Equals,
    Plus,
    Minus,
    Star,
    Slash,
    Comma,
    Dot,
    LessThan,
    LParen,
    RParen,
    LBrace,
    RBrace,
    LBracket,
    RBracket,
    Newline,
    EOF,
}

impl View for Token {
    type V = TokV;

    open spec fn view(&self) -> TokV {
        match self {
            Token::Var => TokV::Var,
            Token::Mut => TokV::Mut,
            Token::Func => TokV::Func,
            Token::Class => TokV::Class,
            Token::Return => TokV::Return,
            Token::Print => TokV::Print,
            Token::Int => TokV::Int,
            Token::Void => TokV::Void,
            Token::StrType => TokV::StrType,
            Token::New => TokV::New,
            Token::If => TokV::If,
            Token::Else => TokV::Else,
            Token::While => TokV::While,
            Token::Identifier(s) => TokV::Identifier(s@),
            Token::Number(n) => TokV::Number(*n),
            Token::StringLit(s) => TokV::StringLit(s@),
            Token::Equals => TokV::Equals,
            Token::Plus => TokV::Plus,
            Token::Minus => TokV::Minus,
            Token::Star => TokV::Star,
            Token::Slash => TokV::Slash,
            Token::Comma => TokV::Comma,
            Token::Dot => TokV::Dot,
            Token::LessThan => TokV::LessThan,
            Token::LParen => TokV::LParen,
            Token::RParen => TokV::RParen,
            Token::LBrace => TokV::LBrace,
            Token::RBrace => TokV::RBrace,
            Token::LBracket => TokV::LBracket,
            Token::RBracket => TokV::RBracket,
            Token::Newline => TokV::Newline,
            Token::EOF => TokV::EOF,
        }
    }
}

/// The token views of a token vector.
pub open spec fn toks_view(s: Seq<Token>) -> Seq<TokV> {
    s.map_values(|t: Token| t@)
}


/// A lexical error: an integer literal too large for its 64-bit token.
#[derive(Debug)]
pub enum LexError {
    NumberTooLarge,
}

/// The scanner state: the source as characters, and a cursor.
pub struct Lexer {
    pub input: Vec<char>,
    pub pos: usize,
}

/// Whether `c` continues an identifier. Relies on char::is_alphanumeric:
/// true exactly for the letter and number general categories, a function
/// of the character alone.
#[verifier::external_body]
fn is_alnum(c: char) -> (r: bool)
    ensures
        r == is_alnum_char(c),
{
    c.is_alphanumeric()
}

pub uninterp spec fn is_alnum_char(c: char) -> bool;

/// The characters of a source string. Relies on str::chars, whose items
/// are exactly the characters of the string in order.
#[verifier::external_body]
fn chars_of(s: &str) -> (r: Vec<char>)
    ensures
        r@ == s@,
{
    s.chars().collect()
}

/// Appends one character. Relies on String::push.
#[verifier::external_body]
fn push_char(s: &mut String, c: char)
    ensures
        final(s)@ == old(s)@ + seq![c],
{
    s.push(c);
}

/// Space, carriage return or tab: skipped without a token.
pub open spec fn is_ws(c: char) -> bool {
    c == ' ' || c == '\r' || c == '\t'
}

/// An ASCII decimal digit.
pub open spec fn is_digit(c: char) -> bool {
    48 <= c as u32 <= 57
}

/// An ASCII letter or underscore: what an identifier may start with.
pub open spec fn is_ident_start(c: char) -> bool {
    (97 <= c as u32 <= 122) || (65 <= c as u32 <= 90) || c == '_'
}

/// What continues an identifier: any alphanumeric character (Unicode
/// letter or number categories) or an underscore.
pub open spec fn is_ident_cont(c: char) -> bool {
    is_alnum_char(c) || c == '_'
}

/// The end of the identifier run that continues at `pos`.
pub open spec fn ident_end(s: Seq<char>, pos: int) -> int
    decreases s.len() - pos,
{
    if pos < 0 || pos >= s.len() {
        s.len() as int
    } else if is_ident_cont(s[pos]) {
        ident_end(s, pos + 1)
    } else {
        pos
    }
}

/// The end of the digit run that continues at `pos`.
pub open spec fn digits_end(s: Seq<char>, pos: int) -> int
    decreases s.len() - pos,
{
    if pos < 0 || pos >= s.len() {
        s.len() as int
    } else if is_digit(s[pos]) {
        digits_end(s, pos + 1)
    } else {
        pos
    }
}

/// The position of the next line break at or after `pos`, or the end.
pub open spec fn line_end(s: Seq<char>, pos: int) -> int
    decreases s.len() - pos,
{
    if pos < 0 || pos >= s.len() {
        s.len() as int
    } else if s[pos] == '\n' {
        pos
    } else {
        line_end(s, pos + 1)
    }
}

/// The position of the closing quote at or after `pos`, or the end.
pub open spec fn string_end(s: Seq<char>, pos: int) -> int
    decreases s.len() - pos,
{
    if pos < 0 || pos >= s.len() {
        s.len() as int
    } else if s[pos] == '"' {
        pos
    } else {
        string_end(s, pos + 1)
    }
}

/// The decimal value of the digits in `[pos, end)`, accumulated left to
/// right onto `acc`.
pub open spec fn digits_val(s: Seq<char>, pos: int, end: int, acc: int) -> int
    decreases end - pos,
{
    if pos >= end {
        acc
    } else {
        digits_val(s, pos + 1, end, acc * 10 + (s[pos] as u32 - 48))
    }
}

/// Whether accumulating the digits in `[pos, end)` onto `acc` stays within
/// the 64-bit range at every step, exactly as the scanner checks it.
pub open spec fn digits_fit(s: Seq<char>, pos: int, end: int, acc: int) -> bool
    decreases end - pos,
{
    if pos >= end {
        true
    } else {
        let d = s[pos] as u32 - 48;
        &&& acc <= (i64::MAX - d) / 10
        &&& digits_fit(s, pos + 1, end, acc * 10 + d)
    }
}

/// The keyword token for an identifier run, or an identifier token
/// carrying it.
pub open spec fn ident_token(text: Seq<char>) -> TokV {
    if text == ("var")@ {
        TokV::Var
    } else if text == ("int")@ {
        TokV::Int
    } else if text == ("void")@ {
        TokV::Void
    } else if text == ("String")@ {
        TokV::StrType
    } else if text == ("new")@ {
        TokV::New
    } else if text == ("mut")@ {
        TokV::Mut
    } else if text == ("func")@ {
        TokV::Func
    } else if text == ("class")@ {
        TokV::Class
    } else if text == ("return")@ {
        TokV::Return
    } else if text == ("print")@ {
        TokV::Print
    } else if text == ("if")@ {
        TokV::If
    } else if text == ("else")@ {
        TokV::Else
    } else if text == ("while")@ {
        TokV::While
    } else {
        TokV::Identifier(text)
    }
}

/// The position a sub-scan that began at `pos` continues from. Every
/// sub-scan consumes at least one character, so in every reachable state
/// this equals `p` itself; the clamp pins that progress into the
/// termination measure.
pub open spec fn fwd(s: Seq<char>, pos: int, p: int) -> int {
    if pos < p <= s.len() {
        p
    } else {
        pos + 1
    }
}

/// `rest` with one token in front, errors passed through.
pub open spec fn cons_tok(t: TokV, rest: Option<Seq<TokV>>) -> Option<Seq<TokV>> {
    match rest {
        Some(r) => Some(seq![t] + r),
        None => None,
    }
}

/// The functional model of the scan from `pos`: the tokens of the rest of
/// the input, ending with the end marker; `None` exactly when a digit run
/// overflows the 64-bit value. Longest match: identifier, digit and
/// string runs extend as far as their character classes allow.
pub open spec fn lex_m(s: Seq<char>, pos: int) -> Option<Seq<TokV>>
    decreases s.len() - pos, 0int,
{
    if pos < 0 || pos >= s.len() {
        Some(seq![TokV::EOF])
    } else {
        let c = s[pos];
        if is_ws(c) {
            lex_m(s, pos + 1)
        } else if c == '\n' {
            cons_tok(TokV::Newline, lex_m(s, pos + 1))
        } else if c == '=' {
            cons_tok(TokV::Equals, lex_m(s, pos + 1))
        } else if c == '+' {
            cons_tok(TokV::Plus, lex_m(s, pos + 1))
        } else if c == '-' {
            cons_tok(TokV::Minus, lex_m(s, pos + 1))
        } else if c == '*' {
            cons_tok(TokV::Star, lex_m(s, pos + 1))
        } else if c == '/' {
            if pos + 1 < s.len() && s[pos + 1] == '/' {
                lex_m(s, fwd(s, pos, line_end(s, pos)))
            } else {
                cons_tok(TokV::Slash, lex_m(s, pos + 1))
            }
        } else if c == '<' {
            cons_tok(TokV::LessThan, lex_m(s, pos + 1))
        } else if c == '.' {
            cons_tok(TokV::Dot, lex_m(s, pos + 1))
        } else if c == ',' {
            cons_tok(TokV::Comma, lex_m(s, pos + 1))
        } else if c == '(' {
            cons_tok(TokV::LParen, lex_m(s, pos + 1))
        } else if c == ')' {
            cons_tok(TokV::RParen, lex_m(s, pos + 1))
        } else if c == '{' {
            cons_tok(TokV::LBrace, lex_m(s, pos + 1))
        } else if c == '}' {
            cons_tok(TokV::RBrace, lex_m(s, pos + 1))
        } else if c == '[' {
            cons_tok(TokV::LBracket, lex_m(s, pos + 1))
        } else if c == ']' {
            cons_tok(TokV::RBracket, lex_m(s, pos + 1))
        } else if is_ident_start(c) {
            let e = ident_end(s, pos + 1);
            cons_tok(ident_token(s.subrange(pos, e)), lex_m(s, fwd(s, pos, e)))
        } else if is_digit(c) {
            let e = digits_end(s, pos);
            if digits_fit(s, pos, e, 0) {
                cons_tok(TokV::Number(digits_val(s, pos, e, 0) as i64), lex_m(s, fwd(s, pos, e)))
            } else {
                None
            }
        } else if c == '"' {
            let e = string_end(s, pos + 1);
            let np = if e < s.len() {
                e + 1
            } else {
                e
            };
            cons_tok(TokV::StringLit(s.subrange(pos + 1, e)), lex_m(s, fwd(s, pos, np)))
        } else {
            lex_m(s, pos + 1)
        }
    }
}

/// The keyword token for `text`, or an identifier token carrying it.
fn keyword_or_ident(text: String) -> (t: Token)
    ensures
        t@ == ident_token(text@),
{
    if text == String::from_str("var") {
        Token::Var
    } else if text == String::from_str("int") {
        Token::Int
    } else if text == String::from_str("void") {
        Token::Void
    } else if text == String::from_str("String") {
        Token::StrType
    } else if text == String::from_str("new") {
        Token::New
    } else if text == String::from_str("mut") {
        Token::Mut
    } else if text == String::from_str("func") {
        Token::Func
    } else if text == String::from_str("class") {
        Token::Class
    } else if text == String::from_str("return") {
        Token::Return
    } else if text == String::from_str("print") {
        Token::Print
    } else if text == String::from_str("if") {
        Token::If
    } else if text == String::from_str("else") {
        Token::Else
    } else if text == String::from_str("while") {
        Token::While
    } else {
        Token::Identifier(text)
    }
}

impl Lexer {
    /// A scanner over `input`, at its start.
    pub fn new(input: String) -> (r: Lexer)
        ensures
            r.input@ == input@,
            r.pos == 0,
    {
        let cs = chars_of(input.as_str());
        Lexer { input: cs, pos: 0 }
    }

    /// Longest-match scan of the whole input: exactly the model `lex_m`.
    /// Whitespace is skipped, line breaks are kept as tokens, `//` comments
    /// run up to (not including) the next line break, and an unrecognized
    /// character is silently skipped. The resulting stream is nonempty and
    /// holds the end marker exactly once, at its end, so it is fit for
    /// `Parser::new`. An integer literal beyond the 64-bit range is the one
    /// fatal scan error, exactly when the model says so.
    #[verifier::loop_isolation(false)]
    #[verifier::rlimit(100)]
    pub fn tokenize(&mut self) -> (r: Result<Vec<Token>, LexError>)
        ensures
            match r {
                Ok(toks) => {
                    let t = toks_view(toks@);
                    &&& lex_m(old(self).input@, old(self).pos as int) == Some(t)
                    &&& t.len() > 0
                    &&& t.last() is EOF
                    &&& forall|i: int| 0 <= i < t.len() - 1 ==> !(#[trigger] t[i] is EOF)
                },
                Err(_) => lex_m(old(self).input@, old(self).pos as int) is None,
            },
    {
        let ghost inp = self.input@;
        let ghost pos0 = self.pos as int;
        let mut tokens: Vec<Token> = Vec::new();
        proof {
            assert(toks_view(tokens@) =~= Seq::<TokV>::empty());
            match lex_m(inp, pos0) {
                Some(rest) => {
                    assert(Seq::<TokV>::empty() + rest =~= rest);
                },
                None => {},
            }
        }
        while self.pos < self.input.len()
            invariant
                self.input@ == inp,
                forall|i: int| 0 <= i < tokens@.len() ==> !(#[trigger] tokens@[i]@ is EOF),
                match lex_m(inp, self.pos as int) {
                    Some(rest) => lex_m(inp, pos0) == Some(toks_view(tokens@) + rest),
                    None => lex_m(inp, pos0) is None,
                },
            decreases inp.len() - self.pos,
        {
            let ghost cur = self.pos as int;
            let ghost done = toks_view(tokens@);
            let c = self.input[self.pos];
            let cu = c as u32;
            if c == ' ' || c == '\r' || c == '\t' {
                self.pos = self.pos + 1;
            } else if c == '\n' {
                tokens.push(Token::Newline);
                self.pos = self.pos + 1;
                proof {
                    assert(toks_view(tokens@) =~= done.push(TokV::Newline));
                    lemma_lex_one(inp, pos0, cur, done, TokV::Newline, self.pos as int, toks_view(tokens@));
                }
            } else if c == '=' {
                tokens.push(Token::Equals);
                self.pos = self.pos + 1;
                proof {
                    assert(toks_view(tokens@) =~= done.push(TokV::Equals));
                    lemma_lex_one(inp, pos0, cur, done, TokV::Equals, self.pos as int, toks_view(tokens@));
                }
            } else if c == '+' {
                tokens.push(Token::Plus);
                self.pos = self.pos + 1;
                proof {
                    assert(toks_view(tokens@) =~= done.push(TokV::Plus));
                    lemma_lex_one(inp, pos0, cur, done, TokV::Plus, self.pos as int, toks_view(tokens@));
                }
            } else if c == '-' {
                tokens.push(Token::Minus);
                self.pos = self.pos + 1;
                proof {
                    assert(toks_view(tokens@) =~= done.push(TokV::Minus));
                    lemma_lex_one(inp, pos0, cur, done, TokV::Minus, self.pos as int, toks_view(tokens@));
                }
            } else if c == '*' {
                tokens.push(Token::Star);
                self.pos = self.pos + 1;
                proof {
                    assert(toks_view(tokens@) =~= done.push(TokV::Star));
                    lemma_lex_one(inp, pos0, cur, done, TokV::Star, self.pos as int, toks_view(tokens@));
                }
            } else if c == '/' {
                if self.pos + 1 < self.input.len() && self.input[self.pos + 1] == '/' {
                    while self.pos < self.input.len() && self.input[self.pos] != '\n'
                        invariant
                            self.input@ == inp,
                            cur <= self.pos <= inp.len(),
                            line_end(inp, cur) == line_end(inp, self.pos as int),
                        decreases inp.len() - self.pos,
                    {
                        self.pos = self.pos + 1;
                    }
                    proof {
                        assert(line_end(inp, self.pos as int) == self.pos as int);
                        assert(self.pos as int == fwd(inp, cur, line_end(inp, cur)));
                    }
                } else {
                    tokens.push(Token::Slash);
                    self.pos = self.pos + 1;
                    proof {
                        assert(toks_view(tokens@) =~= done.push(TokV::Slash));
                        lemma_lex_one(inp, pos0, cur, done, TokV::Slash, self.pos as int, toks_view(tokens@));
                    }
                }
            } else if c == '<' {
                tokens.push(Token::LessThan);
                self.pos = self.pos + 1;
                proof {
                    assert(toks_view(tokens@) =~= done.push(TokV::LessThan));
                    lemma_lex_one(inp, pos0, cur, done, TokV::LessThan, self.pos as int, toks_view(tokens@));
                }
            } else if c == '.' {
                tokens.push(Token::Dot);
                self.pos = self.pos + 1;
                proof {
                    assert(toks_view(tokens@) =~= done.push(TokV::Dot));
                    lemma_lex_one(inp, pos0, cur, done, TokV::Dot, self.pos as int, toks_view(tokens@));
                }
            } else if c == ',' {
                tokens.push(Token::Comma);
                self.pos = self.pos + 1;
                proof {
                    assert(toks_view(tokens@) =~= done.push(TokV::Comma));
                    lemma_lex_one(inp, pos0, cur, done, TokV::Comma, self.pos as int, toks_view(tokens@));
                }
            } else if c == '(' {
                tokens.push(Token::LParen);
                self.pos = self.pos + 1;
                proof {
                    assert(toks_view(tokens@) =~= done.push(TokV::LParen));
                    lemma_lex_one(inp, pos0, cur, done, TokV::LParen, self.pos as int, toks_view(tokens@));
                }
            } else if c == ')' {
                tokens.push(Token::RParen);
                self.pos = self.pos + 1;
                proof {
                    assert(toks_view(tokens@) =~= done.push(TokV::RParen));
                    lemma_lex_one(inp, pos0, cur, done, TokV::RParen, self.pos as int, toks_view(tokens@));
                }
            } else if c == '{' {
                tokens.push(Token::LBrace);
                self.pos = self.pos + 1;
                proof {
                    assert(toks_view(tokens@) =~= done.push(TokV::LBrace));
                    lemma_lex_one(inp, pos0, cur, done, TokV::LBrace, self.pos as int, toks_view(tokens@));
                }
            } else if c == '}' {
                tokens.push(Token::RBrace);
                self.pos = self.pos + 1;
                proof {
                    assert(toks_view(tokens@) =~= done.push(TokV::RBrace));
                    lemma_lex_one(inp, pos0, cur, done, TokV::RBrace, self.pos as int, toks_view(tokens@));
                }
            } else if c == '[' {
                tokens.push(Token::LBracket);
                self.pos = self.pos + 1;
                proof {
                    assert(toks_view(tokens@) =~= done.push(TokV::LBracket));
                    lemma_lex_one(inp, pos0, cur, done, TokV::LBracket, self.pos as int, toks_view(tokens@));
                }
            } else if c == ']' {
                tokens.push(Token::RBracket);
                self.pos = self.pos + 1;
                proof {
                    assert(toks_view(tokens@) =~= done.push(TokV::RBracket));
                    lemma_lex_one(inp, pos0, cur, done, TokV::RBracket, self.pos as int, toks_view(tokens@));
                }
            } else if (97 <= cu && cu <= 122) || (65 <= cu && cu <= 90) || c == '_' {
                let t = self.read_identifier();
                tokens.push(t);
                proof {
                    assert(self.pos as int == fwd(inp, cur, ident_end(inp, cur + 1)));
                    assert(toks_view(tokens@) =~= done.push(t@));
                    lemma_lex_one(inp, pos0, cur, done, t@, self.pos as int, toks_view(tokens@));
                }
            } else if 48 <= cu && cu <= 57 {
                match self.read_number() {
                    Ok(t) => {
                        tokens.push(t);
                        proof {
                            assert(self.pos as int == fwd(inp, cur, digits_end(inp, cur)));
                            assert(toks_view(tokens@) =~= done.push(t@));
                            lemma_lex_one(inp, pos0, cur, done, t@, self.pos as int, toks_view(tokens@));
                        }
                    },
                    Err(e) => {
                        proof {
                            assert(lex_m(inp, cur) is None);
                        }
                        return Err(e);
                    },
                }
            } else if c == '"' {
                let t = self.read_string();
                tokens.push(t);
                proof {
                    let e = string_end(inp, cur + 1);
                    let np: int = if e < inp.len() {
                        e + 1
                    } else {
                        e
                    };
                    assert(self.pos as int == fwd(inp, cur, np));
                    assert(toks_view(tokens@) =~= done.push(t@));
                    lemma_lex_one(inp, pos0, cur, done, t@, self.pos as int, toks_view(tokens@));
                }
            } else {
                self.pos = self.pos + 1;
            }
        }
        tokens.push(Token::EOF);
        proof {
            let t = toks_view(tokens@);
            assert(t.drop_last() =~= toks_view(tokens@.drop_last()));
            assert(t.last() is EOF);
            assert(forall|i: int| 0 <= i < t.len() - 1 ==> !(#[trigger] t[i] is EOF));
            assert(toks_view(tokens@.drop_last()) + seq![TokV::EOF] =~= t);
        }
        Ok(tokens)
    }

    /// Reads an identifier or keyword: the maximal run of alphanumeric and
    /// underscore characters from the start character on, mapped through
    /// the keyword table.
    #[verifier::loop_isolation(false)]
    fn read_identifier(&mut self) -> (t: Token)
        requires
            old(self).pos < old(self).input@.len(),
        ensures
            final(self).input@ == old(self).input@,
            final(self).pos > old(self).pos,
            final(self).pos <= final(self).input@.len(),
            final(self).pos as int == ident_end(old(self).input@, old(self).pos + 1),
            t@ == ident_token(
                old(self).input@.subrange(
                    old(self).pos as int,
                    ident_end(old(self).input@, old(self).pos + 1),
                ),
            ),
            !(t@ is EOF),
            !(t@ is Newline),
    {
        let ghost inp = self.input@;
        let ghost pos0 = self.pos as int;
        let mut text = String::new();
        let c0 = self.input[self.pos];
        push_char(&mut text, c0);
        let n = self.input.len();
        assert(self.pos + 1 <= n);
        self.pos = self.pos + 1;
        assert(text@ =~= inp.subrange(pos0, self.pos as int));
        while self.pos < self.input.len() && (is_alnum(self.input[self.pos]) || self.input[self.pos]
            == '_')
            invariant
                self.input@ == inp,
                pos0 < self.pos <= inp.len(),
                text@ == inp.subrange(pos0, self.pos as int),
                ident_end(inp, pos0 + 1) == ident_end(inp, self.pos as int),
            decreases inp.len() - self.pos,
        {
            let c = self.input[self.pos];
            push_char(&mut text, c);
            self.pos = self.pos + 1;
            assert(text@ =~= inp.subrange(pos0, self.pos as int));
        }
        proof {
            assert(ident_end(inp, self.pos as int) == self.pos as int);
        }
        keyword_or_ident(text)
    }

    /// Reads an integer literal: the maximal digit run, as its decimal
    /// value; a value over the 64-bit range is fatal, exactly when
    /// `digits_fit` fails.
    #[verifier::loop_isolation(false)]
    fn read_number(&mut self) -> (r: Result<Token, LexError>)
        requires
            old(self).pos < old(self).input@.len(),
            is_digit(old(self).input@[old(self).pos as int]),
        ensures
            final(self).input@ == old(self).input@,
            final(self).pos <= final(self).input@.len(),
            match r {
                Ok(t) => {
                    let e = digits_end(old(self).input@, old(self).pos as int);
                    &&& final(self).pos > old(self).pos
                    &&& final(self).pos as int == e
                    &&& digits_fit(old(self).input@, old(self).pos as int, e, 0)
                    &&& t@ == TokV::Number(
                        digits_val(old(self).input@, old(self).pos as int, e, 0) as i64,
                    )
                },
                Err(_) => !digits_fit(
                    old(self).input@,
                    old(self).pos as int,
                    digits_end(old(self).input@, old(self).pos as int),
                    0,
                ),
            },
    {
        let ghost inp = self.input@;
        let ghost pos0 = self.pos as int;
        let ghost de = digits_end(inp, pos0);
        proof {
            lemma_digits_end_bounds(inp, pos0);
        }
        let mut val: i64 = 0;
        while self.pos < self.input.len()
            invariant
                self.input@ == inp,
                pos0 <= self.pos <= inp.len(),
                self.pos == pos0 ==> is_digit(inp[self.pos as int]),
                self.pos <= de,
                de == digits_end(inp, self.pos as int) || (self.pos == de),
                0 <= val,
                digits_val(inp, pos0, de, 0) == digits_val(inp, self.pos as int, de, val as int),
                digits_fit(inp, pos0, de, 0) == digits_fit(inp, self.pos as int, de, val as int),
            decreases inp.len() - self.pos,
        {
            let cu = self.input[self.pos] as u32;
            if 48 <= cu && cu <= 57 {
                proof {
                    assert(self.pos < de);
                }
                let d: i64 = (cu - 48) as i64;
                if val > (i64::MAX - d) / 10 {
                    proof {
                        assert(!digits_fit(inp, self.pos as int, de, val as int));
                    }
                    return Err(LexError::NumberTooLarge);
                }
                val = val * 10 + d;
                self.pos = self.pos + 1;
            } else {
                proof {
                    assert(digits_end(inp, self.pos as int) == self.pos as int);
                }
                break ;
            }
        }
        proof {
            assert(self.pos as int == de);
            assert(digits_val(inp, de, de, val as int) == val as int);
            assert(digits_fit(inp, de, de, val as int));
        }
        Ok(Token::Number(val))
    }

    /// Reads a string literal: the characters strictly between the opening
    /// quote and the next one (or the end of the input when unterminated,
    /// which also leaves the cursor at the end), no escapes.
    #[verifier::loop_isolation(false)]
    fn read_string(&mut self) -> (t: Token)
        requires
            old(self).pos < old(self).input@.len(),
        ensures
            final(self).input@ == old(self).input@,
            final(self).pos > old(self).pos,
            final(self).pos <= final(self).input@.len(),
            ({
                let e = string_end(old(self).input@, old(self).pos + 1);
                &&& final(self).pos as int == (if e < old(self).input@.len() {
                    e + 1
                } else {
                    e
                })
                &&& t@ == TokV::StringLit(old(self).input@.subrange(old(self).pos + 1, e))
            }),
            !(t@ is EOF),
            !(t@ is Newline),
    {
        let ghost inp = self.input@;
        let ghost pos0 = self.pos as int;
        let n = self.input.len();
        assert(self.pos + 1 <= n);
        self.pos = self.pos + 1;
        let mut text = String::new();
        assert(text@ =~= inp.subrange(pos0 + 1, self.pos as int));
        while self.pos < self.input.len() && self.input[self.pos] != '"'
            invariant
                self.input@ == inp,
                pos0 < self.pos <= inp.len(),
                text@ == inp.subrange(pos0 + 1, self.pos as int),
                string_end(inp, pos0 + 1) == string_end(inp, self.pos as int),
            decreases inp.len() - self.pos,
        {
            let c = self.input[self.pos];
            push_char(&mut text, c);
            self.pos = self.pos + 1;
            assert(text@ =~= inp.subrange(pos0 + 1, self.pos as int));
        }
        proof {
            assert(string_end(inp, self.pos as int) == self.pos as int);
        }
        if self.pos < self.input.len() {
            self.pos = self.pos + 1;
        }
        Token::StringLit(text)
    }
}

/// One scan step: the model at `cur` produces token `t` and continues at
/// `np`; appending `t` to the tokens produced so far keeps the whole-scan
/// equation.
proof fn lemma_lex_one(
    inp: Seq<char>,
    pos0: int,
    cur: int,
    done: Seq<TokV>,
    t: TokV,
    np: int,
    toksv: Seq<TokV>,
)
    requires
        lex_m(inp, cur) == cons_tok(t, lex_m(inp, np)),
        toksv == done.push(t),
        match lex_m(inp, cur) {
            Some(rest) => lex_m(inp, pos0) == Some(done + rest),
            None => lex_m(inp, pos0) is None,
        },
    ensures
        match lex_m(inp, np) {
            Some(rest2) => lex_m(inp, pos0) == Some(toksv + rest2),
            None => lex_m(inp, pos0) is None,
        },
{
    match lex_m(inp, np) {
        Some(rest2) => {
            assert(lex_m(inp, cur) == Some(seq![t] + rest2));
            assert(done + (seq![t] + rest2) =~= toksv + rest2);
        },
        None => {},
    }
}

/// The digit-run end lies between `pos` and the input's end, moves past a
/// leading digit, and stops on the first non-digit.
proof fn lemma_digits_end_bounds(s: Seq<char>, pos: int)
    requires
        0 <= pos <= s.len(),
    ensures
        pos <= digits_end(s, pos) <= s.len(),
        (pos < s.len() && is_digit(s[pos])) ==> pos < digits_end(s, pos),
        digits_end(s, pos) < s.len() ==> !is_digit(s[digits_end(s, pos)]),
    decreases s.len() - pos,
{
    if pos < s.len() && is_digit(s[pos]) {
        lemma_digits_end_bounds(s, pos + 1);
    }
}

} // verus!
